use ordinals::sats::{OutPoint, Sat, SatPoint, Sats, Txid};

fn outpoint(n: u128) -> OutPoint {
    OutPoint { txid: Txid(n, 0), vout: 0 }
}

#[test]
fn find_locates_needles() {
    let needles = [(Sat(1), "1"), (Sat(5), "5"), (Sat(12), "12"), (Sat(50), "50"), (Sat(100), "100")];
    let ranges = vec![
        (outpoint(1), vec![(10, 20), (0, 2)]),
        (outpoint(2), vec![(95, 105), (4, 6)]),
    ];
    let found = Sats::find(&needles, &ranges);
    assert_eq!(
        found,
        vec![
            ("1".to_string(), SatPoint { outpoint: outpoint(1), offset: 11 }),
            ("5".to_string(), SatPoint { outpoint: outpoint(2), offset: 11 }),
            ("12".to_string(), SatPoint { outpoint: outpoint(1), offset: 2 }),
            ("100".to_string(), SatPoint { outpoint: outpoint(2), offset: 5 }),
        ]
    );
}

#[test]
fn find_with_nothing() {
    assert!(Sats::find(&[], &[(outpoint(1), vec![(0, 10)])]).is_empty());
    assert!(Sats::find(&[(Sat(3), "3")], &[]).is_empty());
    assert!(Sats::find(&[(Sat(10), "10")], &[(outpoint(1), vec![(0, 10)])]).is_empty());
}

#[test]
fn lost_lists_needles_not_found() {
    let needles = [(Sat(1), "1"), (Sat(5), "5"), (Sat(50), "50"), (Sat(60), "60")];
    let ranges = vec![(outpoint(1), vec![(0, 10)])];
    let found = Sats::find(&needles, &ranges);
    assert_eq!(Sats::lost(&needles, &found), vec!["50".to_string(), "60".to_string()]);
    assert!(Sats::lost(&needles[..2], &found).is_empty());
}

#[test]
fn find_with_unsorted_needles_invents_nothing() {
    let needles = [(Sat(50), "50"), (Sat(5), "5"), (Sat(3), "3")];
    let ranges = vec![(outpoint(1), vec![(0, 10)]), (outpoint(2), vec![(40, 60)])];
    let found = Sats::find(&needles, &ranges);
    for (text, point) in &found {
        let sat: u64 = text.parse().unwrap();
        let (start, offset) = if point.outpoint == outpoint(1) { (0, 0) } else { (40, 0) };
        assert_eq!(point.offset, offset + sat - start);
    }
    assert!(found.iter().any(|(text, _)| text == "50"));
}
