use std::sync::atomic::Ordering;

use nayru::stt::SttHandles;

#[test]
fn cancel_reaches_the_registered_token() {
    let mut handles = SttHandles::default();
    let token = handles.create("a");
    assert!(!token.load(Ordering::Relaxed));
    handles.cancel("b");
    assert!(!token.load(Ordering::Relaxed));
    handles.cancel("a");
    assert!(token.load(Ordering::Relaxed));
}

#[test]
fn create_replaces_and_remove_forgets() {
    let mut handles = SttHandles::new();
    let first = handles.create("x");
    let second = handles.create("x");
    handles.cancel("x");
    assert!(!first.load(Ordering::Relaxed));
    assert!(second.load(Ordering::Relaxed));
    handles.remove("x");
    let third = handles.create("y");
    handles.cancel("x");
    assert!(!third.load(Ordering::Relaxed));
}
