use electric_grid::text_queue::{TextAction, TextQueue};

#[test]
fn queue_is_first_in_first_out() {
    let mut q = TextQueue::new();
    assert!(q.is_empty());
    q.push_text("one");
    q.push_text("two");
    assert!(!q.is_empty());
    assert_eq!(q.pop_text().unwrap().string, "one");
    assert_eq!(q.pop_text().unwrap().string, "two");
    assert!(q.pop_text().is_none());
}

#[test]
fn display_shows_front_text_when_free() {
    let mut q = TextQueue::new();
    q.push_text("hello");
    q.push_text("again");
    assert_eq!(q.display_step(false, false), TextAction::ShowText("hello".to_string()));
    // still writing: nothing new is shown
    assert_eq!(q.display_step(false, false), TextAction::Idle);
    assert_eq!(q.display_step(true, true), TextAction::FinishWriting);
    q.finish_writing();
    // the box is still on screen
    assert_eq!(q.display_step(false, true), TextAction::Idle);
    assert_eq!(q.display_step(true, true), TextAction::ClearText);
    assert_eq!(q.display_step(false, false), TextAction::ShowText("again".to_string()));
    q.finish_writing();
    assert_eq!(q.display_step(false, false), TextAction::Idle);
}

#[test]
fn advance_without_box_does_nothing() {
    let mut q = TextQueue::new();
    q.push_text("wait");
    assert_eq!(q.display_step(true, false), TextAction::Idle);
    assert!(!q.is_empty());
}
