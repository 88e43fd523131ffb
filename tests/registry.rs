use intstore::registry::ClientRegistry;
use intstore::store::apply_append;
use intstore::protocol::update_message;
use tokio::sync::mpsc::channel;

#[test]
fn register_and_unregister() {
    let mut r = ClientRegistry::new();
    let (tx1, _rx1) = channel::<Vec<u8>>(4);
    let (tx2, _rx2) = channel::<Vec<u8>>(4);
    let (tx3, _rx3) = channel::<Vec<u8>>(4);
    assert!(r.register(1, tx1));
    assert!(r.register(2, tx2));
    assert!(!r.register(1, tx3));
    assert_eq!(r.len(), 2);
    r.unregister(1);
    assert!(!r.contains(1));
    assert!(r.contains(2));
    r.unregister(1);
    assert_eq!(r.len(), 1);
}

#[test]
fn broadcast_reaches_every_client() {
    let mut r = ClientRegistry::new();
    let (tx1, mut rx1) = channel::<Vec<u8>>(4);
    let (tx2, mut rx2) = channel::<Vec<u8>>(4);
    r.register(10, tx1);
    r.register(20, tx2);
    let delivered = r.broadcast(&b"hello".to_vec());
    assert_eq!(delivered, vec![true, true]);
    assert_eq!(rx1.try_recv().unwrap(), b"hello".to_vec());
    assert_eq!(rx2.try_recv().unwrap(), b"hello".to_vec());
    assert_eq!(r.len(), 2);
}

#[test]
fn dropped_client_does_not_block_others() {
    let mut r = ClientRegistry::new();
    let (tx1, mut rx1) = channel::<Vec<u8>>(4);
    let (tx2, rx2) = channel::<Vec<u8>>(4);
    let (tx3, mut rx3) = channel::<Vec<u8>>(4);
    r.register(1, tx1);
    r.register(2, tx2);
    r.register(3, tx3);
    drop(rx2);
    let delivered = r.broadcast(&b"update".to_vec());
    assert_eq!(delivered, vec![true, false, true]);
    assert_eq!(rx1.try_recv().unwrap(), b"update".to_vec());
    assert_eq!(rx3.try_recv().unwrap(), b"update".to_vec());
    assert!(!r.contains(2));
    assert!(r.contains(1));
    assert!(r.contains(3));
}

#[test]
fn full_channel_is_dropped_without_waiting() {
    let mut r = ClientRegistry::new();
    let (tx1, mut rx1) = channel::<Vec<u8>>(1);
    let (tx2, mut rx2) = channel::<Vec<u8>>(4);
    r.register(1, tx1);
    r.register(2, tx2);
    assert_eq!(r.broadcast(&b"a".to_vec()), vec![true, true]);
    assert_eq!(r.broadcast(&b"b".to_vec()), vec![false, true]);
    assert_eq!(rx1.try_recv().unwrap(), b"a".to_vec());
    assert_eq!(rx2.try_recv().unwrap(), b"a".to_vec());
    assert_eq!(rx2.try_recv().unwrap(), b"b".to_vec());
    assert_eq!(r.len(), 1);
}

#[test]
fn listener_receives_first_document() {
    let mut r = ClientRegistry::new();
    let (tx_b, mut rx_b) = channel::<Vec<u8>>(4);
    r.register(2, tx_b);
    let document = apply_append(b"", 5).unwrap();
    assert_eq!(document, b"{\"integers\":[5]}".to_vec());
    let (tx_a, mut rx_a) = channel::<Vec<u8>>(4);
    r.register(1, tx_a);
    r.broadcast(&update_message(&document));
    let expected = b"Updated JSON data: {\"integers\":[5]}".to_vec();
    assert_eq!(rx_b.try_recv().unwrap(), expected);
    assert_eq!(rx_a.try_recv().unwrap(), expected);
}

#[test]
fn broadcasts_arrive_in_append_order() {
    let mut r = ClientRegistry::new();
    let (tx, mut rx) = channel::<Vec<u8>>(4);
    r.register(7, tx);
    let first = apply_append(b"", 1).unwrap();
    r.broadcast(&update_message(&first));
    let second = apply_append(&first, 2).unwrap();
    r.broadcast(&update_message(&second));
    assert_eq!(rx.try_recv().unwrap(), update_message(&first));
    assert_eq!(rx.try_recv().unwrap(), update_message(&second));
}
