use neovim_gtk_ui::nvim::handler::PendingRedraws;
use nvim_rs::Value;

#[test]
fn pending_redraws_reschedule_after_current_batch_is_taken() {
    let mut pending = PendingRedraws::default();

    assert!(pending.enqueue(vec![Value::Nil]));
    assert!(!pending.enqueue(vec![Value::Nil]));
    assert_eq!(2, pending.take_pending().unwrap().len());

    // Once the current idle callback has taken ownership of the pending redraws, newly queued
    // redraws must schedule the next idle callback.
    assert!(pending.enqueue(vec![Value::Nil]));
    assert!(!pending.enqueue(vec![Value::Nil]));
    assert_eq!(2, pending.take_pending().unwrap().len());

    assert!(pending.take_pending().is_none());
    assert!(pending.enqueue(vec![Value::Nil]));
}

use neovim_gtk_ui::nvim::handler::{
    redraw_batch_calls, route_notification, route_request, FirstParam, NotifyRoute, RedrawEvent,
    RedrawValue, RequestRoute,
};

#[test]
fn pending_redraws_hand_out_batches_in_arrival_order() {
    let mut pending = PendingRedraws::default();
    assert!(pending.take_pending().is_none());
    assert!(pending.enqueue(1));
    assert!(!pending.enqueue(2));
    assert!(!pending.enqueue(3));
    assert_eq!(Some(vec![1, 2, 3]), pending.take_pending());
    assert!(!pending.scheduled);
    assert!(pending.batches.is_empty());
}

#[test]
fn pending_redraws_empty_take_still_allows_rescheduling() {
    let mut pending = PendingRedraws::default();
    assert!(pending.enqueue(7));
    assert_eq!(Some(vec![7]), pending.take_pending());
    // A second take while nothing arrived clears the flag and hands out nothing.
    assert_eq!(None, pending.take_pending());
    assert!(pending.enqueue(8));
    assert_eq!(Some(vec![8]), pending.take_pending());
}

#[test]
fn notifications_are_routed_by_method() {
    assert!(route_notification("redraw", FirstParam::Missing) == NotifyRoute::Redraw);
    assert!(route_notification("Gui", FirstParam::Str) == NotifyRoute::GuiEvent);
    assert!(route_notification("Gui", FirstParam::Missing) == NotifyRoute::UnsupportedGuiEvent);
    assert!(route_notification("Gui", FirstParam::Other) == NotifyRoute::UnsupportedGuiEvent);
    assert!(route_notification("subscription", FirstParam::Other) == NotifyRoute::Subscription);
    assert!(route_notification("resized", FirstParam::Missing) == NotifyRoute::Resized);
    assert!(route_notification("redraws", FirstParam::Missing) == NotifyRoute::Unknown);
    assert!(route_notification("gui", FirstParam::Str) == NotifyRoute::Unknown);
    assert!(route_notification("", FirstParam::Missing) == NotifyRoute::Unknown);
}

#[test]
fn only_gui_requests_named_by_a_string_are_answered() {
    assert!(route_request("Gui", FirstParam::Str) == RequestRoute::GuiRequest);
    assert!(route_request("Gui", FirstParam::Missing) == RequestRoute::Unsupported);
    assert!(route_request("Gui", FirstParam::Other) == RequestRoute::Unsupported);
    assert!(route_request("redraw", FirstParam::Str) == RequestRoute::Unsupported);
    assert!(route_request("Guix", FirstParam::Str) == RequestRoute::Unsupported);
}

#[test]
fn redraw_batch_decodes_named_events_and_skips_the_rest() {
    let batch: Vec<RedrawEvent<u32>> = vec![
        RedrawEvent::Other,
        RedrawEvent::Array(vec![]),
        RedrawEvent::Array(vec![RedrawValue::Other, RedrawValue::Array(vec![1])]),
        RedrawEvent::Array(vec![RedrawValue::Array(vec![9]), RedrawValue::Array(vec![1])]),
        RedrawEvent::Array(vec![
            RedrawValue::Str("grid_line".to_owned()),
            RedrawValue::Array(vec![1, 2]),
            RedrawValue::Other,
            RedrawValue::Str("x".to_owned()),
            RedrawValue::Array(vec![3]),
        ]),
        RedrawEvent::Array(vec![RedrawValue::Str("flush".to_owned())]),
    ];
    let calls = redraw_batch_calls(batch);
    assert_eq!(2, calls.len());
    assert_eq!("grid_line", calls[0].name);
    assert_eq!(vec![vec![1, 2], vec![], vec![], vec![3]], calls[0].calls);
    assert_eq!("flush", calls[1].name);
    assert!(calls[1].calls.is_empty());
}

#[test]
fn empty_redraw_batch_asks_for_nothing() {
    let calls = redraw_batch_calls::<u32>(vec![]);
    assert!(calls.is_empty());
}

fn sample_batch(tag: u32) -> Vec<RedrawEvent<u32>> {
    vec![
        RedrawEvent::Array(vec![RedrawValue::Str(format!("ev{tag}")), RedrawValue::Array(vec![tag])]),
        RedrawEvent::Other,
        RedrawEvent::Array(vec![RedrawValue::Str("flush".to_owned())]),
    ]
}

fn decoded(batch: Vec<RedrawEvent<u32>>) -> Vec<(String, Vec<Vec<u32>>)> {
    redraw_batch_calls(batch).into_iter().map(|e| (e.name, e.calls)).collect()
}

#[test]
fn coalesced_batches_ask_for_the_same_calls() {
    let mut separate = decoded(sample_batch(1));
    separate.extend(decoded(sample_batch(2)));
    let mut joined = sample_batch(1);
    joined.extend(sample_batch(2));
    assert_eq!(separate, decoded(joined));
    assert_eq!(4, separate.len());
}

#[test]
fn only_the_first_batch_of_a_run_schedules() {
    let mut pending = PendingRedraws::default();
    let scheduled: Vec<bool> = (0..4).map(|i| pending.enqueue(i)).collect();
    assert_eq!(vec![true, false, false, false], scheduled);
    assert!(pending.scheduled);
    assert_eq!(vec![0, 1, 2, 3], pending.batches);
}
