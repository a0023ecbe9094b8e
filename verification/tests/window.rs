//! Retention window expiry.

use caching_strategies::model::{Address, Key, ADDR_LEN};
use caching_strategies::window::RetentionWindow;

fn k(n: u8) -> Key {
    Key::account(Address([n; ADDR_LEN]))
}

#[test]
fn expires_after_n_blocks() {
    let mut w = RetentionWindow::new(4);
    w.touch(k(1), 100);
    assert!(w.drain_expired(103).is_empty());
    let exp = w.drain_expired(104);
    assert_eq!(exp, vec![(k(1), 100)]);
    assert!(w.is_empty());
}

#[test]
fn refresh_extends_lifetime() {
    let mut w = RetentionWindow::new(4);
    w.touch(k(1), 100);
    w.touch(k(1), 102); // refreshed
    assert!(w.drain_expired(104).is_empty()); // 102 + 4 = 106 > 104
    let exp = w.drain_expired(106);
    assert_eq!(exp, vec![(k(1), 102)]);
}

#[test]
fn remove_returns_the_last_stamp() {
    let mut w = RetentionWindow::new(10);
    w.touch(k(1), 5);
    w.touch(k(2), 6);
    assert_eq!(w.remove(&k(1)), Some(5));
    assert_eq!(w.remove(&k(1)), None);
    assert_eq!(w.len(), 1);
}
