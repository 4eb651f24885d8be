use lob_lab::gaps::{GapCheck, GapDetector};
use lob_lab::messages::BookMsg;

fn change(change_id: u64, prev: Option<u64>) -> BookMsg {
    BookMsg {
        kind: if prev.is_some() {
            "change".into()
        } else {
            "snapshot".into()
        },
        timestamp: 0,
        change_id,
        prev_change_id: prev,
        bids: vec![],
        asks: vec![],
    }
}

#[test]
fn a_contiguous_stream_has_no_gaps() {
    let mut d = GapDetector::default();
    assert_eq!(d.check(&change(1, None)), GapCheck::Restart);
    assert_eq!(d.check(&change(2, Some(1))), GapCheck::Contiguous);
    assert_eq!(d.check(&change(3, Some(2))), GapCheck::Contiguous);
}

#[test]
fn a_skipped_change_id_is_reported() {
    let mut d = GapDetector::default();
    d.check(&change(1, None));
    assert_eq!(d.check(&change(9, Some(7))), GapCheck::Missing { from: 1, to: 7 });
}

#[test]
fn a_snapshot_resets_the_detector() {
    let mut d = GapDetector::default();
    d.check(&change(1, None));
    d.check(&change(9, Some(7)));
    assert_eq!(d.check(&change(20, None)), GapCheck::Restart);
    assert_eq!(d.check(&change(21, Some(20))), GapCheck::Contiguous);
}

#[test]
fn a_first_message_with_a_predecessor_restarts() {
    let mut d = GapDetector::default();
    assert_eq!(d.check(&change(5, Some(4))), GapCheck::Restart);
}
