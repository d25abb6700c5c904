use vault_of_cardboard::card::{Card, Collection, Lookup, OwnedCard, Pile};
use vault_of_cardboard::cdif::File;
use vault_of_cardboard::reconciler::Aggregate;

fn delta(pid: &str, quantity: i32) -> Card {
    Card {
        id: pid.to_string(),
        quantity,
        gvars: vec![],
        lvars: vec![],
    }
}

fn owned(qty: u32, pid: &str) -> (u32, OwnedCard) {
    (
        qty,
        OwnedCard {
            pid: pid.to_string(),
            var: vec![],
        },
    )
}

#[test]
fn card_should_be_able_to_convert_cdif_to_a_pile() {
    let mut map = Lookup::new();
    map.insert(
        "MIR Barbed-Back Wurm".to_string(),
        "1b96810d-72d3-4dee-a29f-cdf85ea5ce6f".to_string(),
    );
    assert_eq!(
        map.get("MIR Barbed-Back Wurm"),
        Some(&"1b96810d-72d3-4dee-a29f-cdf85ea5ce6f".to_string())
    );

    let f = File::from_string("4x MIR Barbed-Back Wurm\n").unwrap();
    let pile = Pile::resolve(f, map).unwrap();
    assert_eq!(pile.cards.len(), 1);

    let card = &pile.cards[0];
    assert_eq!(card.quantity, 4);
    assert_eq!(card.id, "1b96810d-72d3-4dee-a29f-cdf85ea5ce6f");
    assert_eq!(card.gvars.len(), 0);
    assert_eq!(card.lvars.len(), 0);
}

#[test]
fn pile_should_be_able_to_convert_cdif_to_a_pile() {
    let mut map = Lookup::new();
    map.insert(
        "MIR Barbed-Back Wurm".to_string(),
        "1b96810d-72d3-4dee-a29f-cdf85ea5ce6f".to_string(),
    );
    assert_eq!(
        map.get("MIR Barbed-Back Wurm"),
        Some(&"1b96810d-72d3-4dee-a29f-cdf85ea5ce6f".to_string())
    );

    let f = File::from_string("4x MIR Barbed-Back Wurm\n").unwrap();
    let pile = Pile::resolve(f, map).unwrap();
    assert_eq!(pile.cards.len(), 1);

    let card = &pile.cards[0];
    assert_eq!(card.quantity, 4);
    assert_eq!(card.id, "1b96810d-72d3-4dee-a29f-cdf85ea5ce6f");
    assert_eq!(card.gvars.len(), 0);
    assert_eq!(card.lvars.len(), 0);
}

#[test]
fn should_be_able_to_invert_a_cdif_pile() {
    let mut map = Lookup::new();
    map.insert(
        "MIR Barbed-Back Wurm".to_string(),
        "1b96810d-72d3-4dee-a29f-cdf85ea5ce6f".to_string(),
    );
    assert_eq!(
        map.get("MIR Barbed-Back Wurm"),
        Some(&"1b96810d-72d3-4dee-a29f-cdf85ea5ce6f".to_string())
    );

    let f = File::from_string("4x MIR Barbed-Back Wurm\n").unwrap();
    let mut pile = Pile::resolve(f, map).unwrap();
    pile.invert();
    assert_eq!(pile.cards.len(), 1);

    let card = &pile.cards[0];
    assert_eq!(card.quantity, -4);
    assert_eq!(card.id, "1b96810d-72d3-4dee-a29f-cdf85ea5ce6f");
    assert_eq!(card.gvars.len(), 0);
    assert_eq!(card.lvars.len(), 0);
}

#[test]
fn resolution_is_all_or_nothing() {
    let mut map = Lookup::new();
    map.insert("DOM Opt".to_string(), "dom-opt".to_string());
    let f = File::from_string("1x DOM Opt\n2x GRN Radical Idea\n").unwrap();
    let err = Pile::resolve(f, map).err().unwrap();
    assert_eq!(err.key, "GRN Radical Idea");
}

#[test]
fn card_should_allow_merging_to_change_quantity_of_owned_cards() {
    let mut c = Collection::new();
    c.cards.push(owned(1, "mir-plains"));

    c.merge(&Pile {
        cards: vec![delta("mir-plains", 2)],
    });

    assert_eq!(c.cards.len(), 1);
    assert_eq!(c.cards[0].0, 3);
    assert_eq!(c.cards[0].1.pid, "mir-plains");
    assert_eq!(c.cards[0].1.var.len(), 0);
}

#[test]
fn card_should_allow_merging_to_introduce_new_owned_cards() {
    let mut c = Collection::new();
    c.cards.push(owned(1, "mir-plains"));

    c.merge(&Pile {
        cards: vec![delta("mir-swamp", 2)],
    });

    assert_eq!(c.cards.len(), 2);
    assert_eq!(c.cards[0].0, 1);
    assert_eq!(c.cards[0].1.pid, "mir-plains");
    assert_eq!(c.cards[1].0, 2);
    assert_eq!(c.cards[1].1.pid, "mir-swamp");
}

#[test]
fn card_should_allow_merging_to_remove_cards_no_longer_owned() {
    let mut c = Collection::new();
    c.cards.push(owned(1, "mir-plains"));

    c.merge(&Pile {
        cards: vec![delta("mir-plains", -1)],
    });

    assert_eq!(c.cards.len(), 0);
}

#[test]
fn card_should_allow_merging_to_remove_cards_in_multiple_passes() {
    let mut c = Collection::new();
    c.cards.push(owned(5, "mir-plains"));

    c.merge(&Pile {
        cards: vec![delta("mir-plains", -3), delta("mir-plains", -2)],
    });

    assert_eq!(c.cards.len(), 0);
}

#[test]
fn card_should_allow_merging_to_remove_cards_with_extreme_prejudice() {
    let mut c = Collection::new();
    // we're going to "lose" 5 of them, while owning only 1...
    c.cards.push(owned(1, "mir-plains"));

    c.merge(&Pile {
        cards: vec![delta("mir-plains", -3), delta("mir-plains", -2)],
    });

    assert_eq!(c.cards.len(), 0);
}

#[test]
fn card_should_merge_without_getting_tripped_up_by_mid_iter_removal() {
    let mut c = Collection::new();
    c.cards.push(owned(1, "mir-plains"));
    c.cards.push(owned(3, "mir-swamp"));

    c.merge(&Pile {
        cards: vec![delta("mir-plains", -1), delta("mir-swamp", -1)],
    });

    assert_eq!(c.cards.len(), 1);
    assert_eq!(c.cards[0].0, 2);
    assert_eq!(c.cards[0].1.pid, "mir-swamp");
}

#[test]
fn collection_should_allow_merging_to_change_quantity_of_owned_cards() {
    let mut c = Collection::new();
    c.cards.push(owned(1, "mir-plains"));
    c.merge(&Pile {
        cards: vec![delta("mir-plains", 2)],
    });
    assert_eq!(c.cards.len(), 1);
    assert_eq!(c.cards[0].0, 3);
    assert_eq!(c.cards[0].1.pid, "mir-plains");
}

#[test]
fn collection_should_allow_merging_to_introduce_new_owned_cards() {
    let mut c = Collection::new();
    c.cards.push(owned(1, "mir-plains"));
    c.merge(&Pile {
        cards: vec![delta("mir-swamp", 2)],
    });
    assert_eq!(c.cards.len(), 2);
    assert_eq!(c.cards[1].0, 2);
    assert_eq!(c.cards[1].1.pid, "mir-swamp");
}

#[test]
fn collection_should_allow_merging_to_remove_cards_no_longer_owned() {
    let mut c = Collection::new();
    c.cards.push(owned(1, "mir-plains"));
    c.merge(&Pile {
        cards: vec![delta("mir-plains", -1)],
    });
    assert_eq!(c.cards.len(), 0);
}

#[test]
fn collection_should_allow_merging_to_remove_cards_in_multiple_passes() {
    let mut c = Collection::new();
    c.cards.push(owned(5, "mir-plains"));
    c.merge(&Pile {
        cards: vec![delta("mir-plains", -3), delta("mir-plains", -2)],
    });
    assert_eq!(c.cards.len(), 0);
}

#[test]
fn collection_should_allow_merging_to_remove_cards_with_extreme_prejudice() {
    let mut c = Collection::new();
    c.cards.push(owned(1, "mir-plains"));
    c.merge(&Pile {
        cards: vec![delta("mir-plains", -3), delta("mir-plains", -2)],
    });
    assert_eq!(c.cards.len(), 0);
}

#[test]
fn collection_should_merge_without_getting_tripped_up_by_mid_iter_removal() {
    let mut c = Collection::new();
    c.cards.push(owned(1, "mir-plains"));
    c.cards.push(owned(3, "mir-swamp"));
    c.merge(&Pile {
        cards: vec![delta("mir-plains", -1), delta("mir-swamp", -1)],
    });
    assert_eq!(c.cards.len(), 1);
    assert_eq!(c.cards[0].0, 2);
    assert_eq!(c.cards[0].1.pid, "mir-swamp");
}

#[test]
fn debiting_an_unowned_card_is_a_silent_no_op() {
    let mut c = Collection::new();
    c.cards.push(owned(2, "mir-plains"));
    c.merge(&Pile {
        cards: vec![delta("mir-swamp", -3)],
    });
    assert_eq!(c.cards.len(), 1);
    assert_eq!(c.cards[0].0, 2);
    assert_eq!(c.cards[0].1.pid, "mir-plains");
}

#[test]
fn compaction_folds_pending_patches_in_order() {
    let ledger = Aggregate(
        vec![owned(5, "mir-plains")],
        vec![
            vec![delta("mir-plains", -3)],
            vec![delta("mir-swamp", 2), delta("mir-plains", -2)],
        ],
    );
    let compacted = ledger.compact();
    assert_eq!(compacted.1.len(), 0);
    assert_eq!(compacted.0.len(), 1);
    assert_eq!(compacted.0[0].0, 2);
    assert_eq!(compacted.0[0].1.pid, "mir-swamp");
}

#[test]
fn compacting_a_zero_pending_ledger_changes_nothing() {
    let ledger = Aggregate(vec![owned(4, "mir-island"), owned(2, "mir-forest")], vec![]);
    let compacted = ledger.compact();
    assert_eq!(compacted.1.len(), 0);
    assert_eq!(compacted.0.len(), 2);
    assert_eq!(compacted.0[0].0, 4);
    assert_eq!(compacted.0[0].1.pid, "mir-island");
    assert_eq!(compacted.0[1].0, 2);
    assert_eq!(compacted.0[1].1.pid, "mir-forest");
}

#[test]
fn appending_then_compacting_equals_direct_merging() {
    let patch = || vec![delta("mir-plains", -1), delta("mir-swamp", 2)];

    // deferred: the patch sits in the pending list until compaction
    let deferred = Aggregate(vec![owned(3, "mir-plains")], vec![patch()]).compact();

    // direct: merge the patch straight into the compacted base
    let direct = Aggregate(vec![owned(3, "mir-plains")], vec![]).compact();
    let mut c = Collection { cards: direct.0 };
    c.merge(&Pile { cards: patch() });

    assert_eq!(deferred.0.len(), c.cards.len());
    for (left, right) in deferred.0.iter().zip(c.cards.iter()) {
        assert_eq!(left.0, right.0);
        assert_eq!(left.1.pid, right.1.pid);
    }
    assert_eq!(deferred.0[0].0, 2);
    assert_eq!(deferred.0[0].1.pid, "mir-plains");
    assert_eq!(deferred.0[1].0, 2);
    assert_eq!(deferred.0[1].1.pid, "mir-swamp");
}

#[test]
fn diff_then_merge_reproduces_the_second_ledger() {
    // build two documents, resolve both, and check that merging the diff
    // onto the first ledger gives the second ledger's holdings
    let a = File::from_string("4x DOM Opt\n4x GRN Radical Idea\n").unwrap();
    let b = File::from_string("2x DOM Opt\n4x GRN Radical Idea\n3x RIX Secrets of the Golden City\n")
        .unwrap();
    let d = File::diff(&a, &b);

    let lookup = || {
        let mut m = Lookup::new();
        m.insert("DOM Opt".to_string(), "dom-opt".to_string());
        m.insert("GRN Radical Idea".to_string(), "grn-radical-idea".to_string());
        m.insert(
            "RIX Secrets of the Golden City".to_string(),
            "rix-secrets".to_string(),
        );
        m
    };

    let mut from_a = Collection::new();
    from_a.merge(&Pile::resolve(a, lookup()).unwrap());
    let mut from_b = Collection::new();
    from_b.merge(&Pile::resolve(b, lookup()).unwrap());

    from_a.merge(&Pile::resolve(d, lookup()).unwrap());

    let qty = |c: &Collection, pid: &str| -> u32 {
        for (q, row) in &c.cards {
            if row.pid == pid {
                return *q;
            }
        }
        0
    };
    for pid in ["dom-opt", "grn-radical-idea", "rix-secrets"] {
        assert_eq!(qty(&from_a, pid), qty(&from_b, pid), "holdings of {}", pid);
    }
}
