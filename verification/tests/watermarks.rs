use task_core::message::{advances, Action, ArrowMessage, SignalMessage, Watermark};
use task_core::operator::{Event, OperatorLoop};
use task_core::watermark_holder::WatermarkHolder;

fn watermark(partition: usize, w: Watermark) -> Event {
    Event::Message { partition, message: ArrowMessage::Signal(SignalMessage::Watermark(w)) }
}

#[test]
fn merged_watermark_is_the_minimum_of_the_reported() {
    let mut h = WatermarkHolder::with_partitions(2);
    assert_eq!(h.partitions(), 2);
    assert_eq!(h.watermark(), None);
    assert_eq!(h.set(0, Watermark::EventTime(10)), Some(Watermark::EventTime(10)));
    assert_eq!(h.watermark(), Some(Watermark::EventTime(10)));
    assert_eq!(h.set(1, Watermark::EventTime(5)), None);
    assert_eq!(h.watermark(), Some(Watermark::EventTime(5)));
    assert_eq!(h.set(1, Watermark::EventTime(12)), Some(Watermark::EventTime(10)));
    assert_eq!(h.watermark(), Some(Watermark::EventTime(10)));
}

#[test]
fn merged_watermark_advance_is_handed_on_once() {
    let mut l = OperatorLoop::new(2);
    l.step(watermark(0, Watermark::EventTime(10))).unwrap();
    let lower = l.step(watermark(1, Watermark::EventTime(5))).unwrap();
    assert_eq!(lower, vec![Action::Register { partition: 1 }]);
    assert_eq!(l.watermark(), Some(Watermark::EventTime(5)));
    let acts = l.step(watermark(1, Watermark::EventTime(12))).unwrap();
    assert_eq!(
        acts,
        vec![Action::HandleWatermark(Watermark::EventTime(10)), Action::Register { partition: 1 }]
    );
    assert_eq!(l.watermark(), Some(Watermark::EventTime(10)));
}

#[test]
fn unchanged_merge_is_not_handed_on() {
    let mut h = WatermarkHolder::with_partitions(2);
    h.set(0, Watermark::EventTime(3));
    h.set(1, Watermark::EventTime(8));
    assert_eq!(h.set(1, Watermark::EventTime(9)), None);
    assert_eq!(h.set(0, Watermark::EventTime(3)), None);
    assert_eq!(h.set(0, Watermark::EventTime(4)), Some(Watermark::EventTime(4)));
}

#[test]
fn idle_partition_holds_nobody_back() {
    let mut h = WatermarkHolder::with_partitions(2);
    assert_eq!(h.set(0, Watermark::Idle), Some(Watermark::Idle));
    assert_eq!(h.set(1, Watermark::EventTime(7)), None);
    assert_eq!(h.watermark(), Some(Watermark::EventTime(7)));
    assert_eq!(h.set(1, Watermark::Idle), Some(Watermark::Idle));
    assert_eq!(h.set(0, Watermark::EventTime(u64::MAX)), None);
    assert_eq!(h.watermark(), Some(Watermark::EventTime(u64::MAX)));
}

#[test]
fn regression_is_stored_as_it_comes() {
    let mut h = WatermarkHolder::with_partitions(1);
    assert_eq!(h.set(0, Watermark::EventTime(10)), Some(Watermark::EventTime(10)));
    assert_eq!(h.set(0, Watermark::EventTime(4)), None);
    assert_eq!(h.watermark(), Some(Watermark::EventTime(4)));
}

#[test]
fn holder_merges_given_slots() {
    let h = WatermarkHolder::new(vec![
        Some(Watermark::EventTime(9)),
        None,
        Some(Watermark::EventTime(2)),
        Some(Watermark::Idle),
    ]);
    assert_eq!(h.watermark(), Some(Watermark::EventTime(2)));
    assert_eq!(WatermarkHolder::new(vec![None, None]).watermark(), None);
    assert_eq!(WatermarkHolder::new(vec![]).watermark(), None);
    assert_eq!(WatermarkHolder::new(vec![Some(Watermark::Idle)]).watermark(), Some(Watermark::Idle));
}

#[test]
fn order_of_progress() {
    assert!(Watermark::EventTime(1).at_most(Watermark::EventTime(1)));
    assert!(Watermark::EventTime(1).at_most(Watermark::EventTime(2)));
    assert!(!Watermark::EventTime(3).at_most(Watermark::EventTime(2)));
    assert!(Watermark::EventTime(u64::MAX).at_most(Watermark::Idle));
    assert!(!Watermark::Idle.at_most(Watermark::EventTime(u64::MAX)));
    assert!(Watermark::Idle.at_most(Watermark::Idle));
    assert!(advances(None, Some(Watermark::EventTime(0))));
    assert!(!advances(None, None));
    assert!(!advances(Some(Watermark::EventTime(0)), None));
    assert!(advances(Some(Watermark::EventTime(0)), Some(Watermark::EventTime(1))));
    assert!(!advances(Some(Watermark::EventTime(1)), Some(Watermark::EventTime(1))));
    assert!(advances(Some(Watermark::EventTime(1)), Some(Watermark::Idle)));
}
