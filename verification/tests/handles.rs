use bevy_worker::window::{setup_added_window, HandleError, OffscreenWindowHandle};
use raw_window_handle::{RawDisplayHandle, RawWindowHandle, WebWindowHandle};

fn raw(id: u32) -> RawWindowHandle {
    RawWindowHandle::Web(WebWindowHandle::new(id))
}

#[test]
fn first_added_window_gets_the_handle() {
    assert_eq!(setup_added_window(&vec![7, 3, 5]), Some(7));
    assert_eq!(setup_added_window(&Vec::new()), None);
}

#[test]
fn home_thread_gets_the_window_handle() {
    let handle = OffscreenWindowHandle::new(raw(3), 11u64);
    assert_eq!(handle.window_handle(&11).unwrap(), &raw(3));
}

#[test]
fn other_threads_do_not_get_the_window_handle() {
    let handle = OffscreenWindowHandle::new(raw(3), 11u64);
    assert_eq!(handle.window_handle(&12).unwrap_err(), HandleError::NotSupported);
}

#[test]
fn display_is_that_of_the_web() {
    let handle = OffscreenWindowHandle::new(raw(3), 11u64);
    let display = handle.display_handle().unwrap();
    assert!(matches!(display.as_raw(), RawDisplayHandle::Web(_)));
}
