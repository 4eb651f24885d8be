use lob_lab::book::{Book, Qty, Side, Tick};

#[test]
fn applies_absolute_amounts_and_deletes_on_zero() {
    let mut b = Book::new();
    b.set(Side::Bid, 100, 5);
    b.set(Side::Bid, 99, 7);
    b.set(Side::Ask, 101, 3);
    assert_eq!(b.best_bid(), Some((100, 5)));
    assert_eq!(b.best_ask(), Some((101, 3)));
    b.set(Side::Bid, 100, 0);
    assert_eq!(b.best_bid(), Some((99, 7)));
    assert!(!b.crossed());
}

#[test]
fn detects_a_crossed_book() {
    let mut b = Book::new();
    b.set(Side::Bid, 101, 5);
    b.set(Side::Ask, 100, 5);
    assert!(b.crossed());
}

/// A book nobody can get wrong: a flat vector scanned end to end.
#[derive(Default)]
struct RefBook {
    levels: Vec<(Side, Tick, Qty)>,
}

impl RefBook {
    fn set(&mut self, side: Side, price: Tick, amount: Qty) {
        self.levels.retain(|(s, p, _)| !(*s == side && *p == price));
        if amount > 0 {
            self.levels.push((side, price, amount));
        }
    }

    fn best(&self, side: Side) -> Option<(Tick, Qty)> {
        self.levels
            .iter()
            .filter(|(s, _, _)| *s == side)
            .map(|(_, p, q)| (*p, *q))
            .reduce(|a, b| match side {
                Side::Bid => {
                    if b.0 > a.0 {
                        b
                    } else {
                        a
                    }
                }
                Side::Ask => {
                    if b.0 < a.0 {
                        b
                    } else {
                        a
                    }
                }
            })
    }
}

#[test]
fn book_matches_reference() {
    let mut rng = lob_lab::bootstrap::SplitMix64::new(7);
    for _ in 0..50 {
        let mut book = Book::new();
        let mut reference = RefBook::default();
        for _ in 0..200 {
            let side = if rng.below(2) == 0 { Side::Bid } else { Side::Ask };
            let price = 1 + rng.below(19) as i64;
            let amount = 10 * rng.below(5) as i64;
            book.set(side, price, amount);
            reference.set(side, price, amount);
            assert_eq!(book.best_bid(), reference.best(Side::Bid));
            assert_eq!(book.best_ask(), reference.best(Side::Ask));
            assert_eq!(book.qty_at(side, price), if amount > 0 { amount } else { 0 });
        }
    }
}

#[test]
fn levels_come_in_ascending_price() {
    let mut b = Book::new();
    b.update(&vec![(5, 50), (3, 30), (4, 0), (5, 55)], &vec![(9, 90), (7, -1)]);
    assert_eq!(b.levels(Side::Bid), vec![(3, 30), (5, 55)]);
    assert_eq!(b.levels(Side::Ask), vec![(9, 90)]);
    assert_eq!(b.mid2(), Some(14));
    assert_eq!(b.wide_mid2(), Some(14));
    b.clear();
    assert_eq!(b.mid2(), None);
    assert!(b.levels(Side::Bid).is_empty());
}

#[test]
fn the_widest_ticks_have_a_mid() {
    let mut b = Book::new();
    b.set(Side::Bid, i64::MIN, 1);
    b.set(Side::Ask, i64::MIN, 1);
    assert_eq!(b.wide_mid2(), Some(2 * i64::MIN as i128));
    assert!(b.crossed());
}

#[test]
fn the_other_side_of_the_other_side_is_the_side() {
    assert_eq!(Side::Bid.opposite(), Side::Ask);
    assert_eq!(Side::Ask.opposite().opposite(), Side::Ask);
}
