use epistle::codec::encode;
use epistle::message::Epistle;
use epistle::registry::Registry;
use epistle::router::{fan_out, InboundQueue};
use epistle::stream::{FrameReader, Poll};

#[test]
fn register_hands_out_distinct_ids() {
    let mut reg: Registry<&str> = Registry::new();
    let a = reg.register("a").unwrap();
    let b = reg.register("b").unwrap();
    let c = reg.register("c").unwrap();
    assert!(a != b && b != c && a != c);
    assert_eq!(reg.get(b), Some(&"b"));
    let mut ids = reg.ids();
    ids.sort();
    let mut want = vec![a, b, c];
    want.sort();
    assert_eq!(ids, want);
}

#[test]
fn deregister_removes_only_that_connection() {
    let mut reg: Registry<u32> = Registry::new();
    let a = reg.register(10).unwrap();
    let b = reg.register(20).unwrap();
    assert_eq!(reg.deregister(a), Some(10));
    assert_eq!(reg.deregister(a), None);
    assert_eq!(reg.get(a), None);
    assert_eq!(reg.get(b), Some(&20));
    assert_eq!(reg.ids(), vec![b]);
    let c = reg.register(30).unwrap();
    assert!(c != a);
}

#[test]
fn fan_out_reaches_every_connection_once() {
    let mut reg: Registry<u32> = Registry::new();
    let ids: Vec<u64> = (0..5).map(|i| reg.register(i).unwrap()).collect();
    let sender = ids[2];
    let msg = Epistle::text("carol".to_string(), "to all".to_string());
    let b = fan_out(&reg, &msg);
    assert_eq!(b.frame, encode(&msg));
    assert_eq!(b.targets.len(), 5);
    for id in &ids {
        assert_eq!(b.targets.iter().filter(|t| *t == id).count(), 1);
    }
    assert!(b.targets.contains(&sender));
}

#[test]
fn failed_send_prunes_only_that_peer() {
    let mut reg: Registry<u32> = Registry::new();
    let ids: Vec<u64> = (0..4).map(|i| reg.register(i * 100).unwrap()).collect();
    let b = fan_out(&reg, &Epistle::Handshake);
    let broken = ids[1];
    let delivered: Vec<bool> = b.targets.iter().map(|t| *t != broken).collect();
    let dropped = reg.prune(&b.targets, &delivered);
    assert_eq!(dropped, vec![100]);
    assert_eq!(reg.get(broken), None);
    for id in [ids[0], ids[2], ids[3]] {
        assert!(reg.get(id).is_some());
    }
    let next = fan_out(&reg, &Epistle::Handshake);
    assert_eq!(next.targets.len(), 3);
    assert!(!next.targets.contains(&broken));
}

#[test]
fn full_queue_hands_the_message_back() {
    let mut q: InboundQueue<u32> = InboundQueue::new(3);
    assert_eq!(q.try_push(1), Ok(()));
    assert_eq!(q.try_push(2), Ok(()));
    assert_eq!(q.try_push(3), Ok(()));
    assert!(q.is_full());
    assert_eq!(q.try_push(4), Err(4));
    assert_eq!(q.len(), 3);
    assert_eq!(q.pop(), Some(1));
    assert_eq!(q.try_push(4), Ok(()));
    assert_eq!(q.pop(), Some(2));
    assert_eq!(q.pop(), Some(3));
    assert_eq!(q.pop(), Some(4));
    assert_eq!(q.pop(), None);
}

#[test]
fn peer_receives_text_in_order() {
    let mut reg: Registry<&str> = Registry::new();
    let b_id = reg.register("client b").unwrap();
    let a_id = reg.register("client a").unwrap();
    let mut queue: InboundQueue<Epistle> = InboundQueue::new(3);
    let earlier = Epistle::text("alice".to_string(), "first".to_string());
    let hi = Epistle::text("alice".to_string(), "hi".to_string());
    assert!(queue.try_push(earlier.clone()).is_ok());
    assert!(queue.try_push(hi.clone()).is_ok());

    let mut b_reader = FrameReader::new();
    while let Some(msg) = queue.pop() {
        let plan = fan_out(&reg, &msg);
        assert!(plan.targets.contains(&b_id));
        assert!(plan.targets.contains(&a_id));
        b_reader.feed(&plan.frame);
    }
    assert_eq!(b_reader.next_frame(), Poll::Frame(earlier));
    assert_eq!(
        b_reader.next_frame(),
        Poll::Frame(Epistle::text("alice".to_string(), "hi".to_string()))
    );
    assert_eq!(b_reader.next_frame(), Poll::NeedMore);
}
