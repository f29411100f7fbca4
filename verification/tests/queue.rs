use mpmc_ringbuf::{BufferCacheMode, ConfigError, MsgQueue, MsgQueueInner};
use std::cell::RefCell;
use std::rc::Rc;
use std::sync::{Arc, Mutex};

#[test]
fn test_single_thread_msg_queue() {
    let mut msg_queue: MsgQueue<u8> = MsgQueue::new();
    let writer1 = msg_queue.add_producer();
    let mut read1 = msg_queue.add_consumer();
    writer1.write(&mut msg_queue, vec![10; 100]);
    println!("{}", msg_queue.get_consumer_count());
    println!("{}", read1.size(&mut msg_queue));
    assert_eq!(read1.size(&mut msg_queue), 100);
    let mut read2 = msg_queue.add_consumer();
    assert_eq!(read2.size(&mut msg_queue), 0);
    assert_eq!(msg_queue.get_consumer_count(), 2);
    writer1.write(&mut msg_queue, vec![0; 100]);
    assert_eq!(read1.size(&mut msg_queue), 200);
    assert_eq!(read2.size(&mut msg_queue), 100);
    read2.read(&mut msg_queue, 50);
    assert_eq!(read1.size(&mut msg_queue), 200);
    assert_eq!(read2.size(&mut msg_queue), 50);
}

#[test]
fn test_multi_thread_msg_queue() {
    let msg_queue: Arc<Mutex<MsgQueue<u8>>> = Arc::new(Mutex::new(MsgQueue::new()));
    let m1 = msg_queue.clone();
    let m2 = msg_queue.clone();
    let c1_id;
    let c2_id;
    {
        let mut msg_lock = (*msg_queue).lock().unwrap();
        let c1 = msg_lock.add_consumer();
        let c2 = msg_lock.add_consumer();
        c1_id = c1.id();
        c2_id = c2.id();
    }
    assert_eq!(msg_queue.lock().unwrap().get_consumer_count(), 2);
    {
        let mut msg_lock = (*m1).lock().unwrap();
        println!("get lock1");
        let p = msg_lock.add_producer();
        for _i in 0..100 {
            p.write(&mut msg_lock, vec![0; 5]);
        }
    }
    {
        let mut msg_lock = (*m2).lock().unwrap();
        println!("get lock1");
        let p = msg_lock.add_producer();
        for _i in 0..100 {
            p.write(&mut msg_lock, vec![0; 5]);
        }
    }
    {
        let mut msg_lock = (*msg_queue).lock().unwrap();
        assert_eq!(msg_lock.get_consumer_count(), 2);
        let mut c1 = msg_lock.get_consumer(c1_id);
        let mut c2 = msg_lock.get_consumer(c2_id);
        println!("size: {} {}", c1.size(&mut msg_lock), c2.size(&mut msg_lock));
        assert_eq!(c1.size(&mut msg_lock), 1000);
        assert_eq!(c2.size(&mut msg_lock), 1000);
    }
}

#[test]
fn test_string() {
    let msg_queue = Rc::new(RefCell::new(MsgQueue::<String>::new()));
    let mut c1 = msg_queue.borrow_mut().add_consumer();
    let writer = msg_queue.borrow_mut().add_producer();
    writer.write(
        &mut msg_queue.borrow_mut(),
        vec!["hello".to_string(), "world".to_string()],
    );
    assert_eq!(c1.size(&mut msg_queue.borrow_mut()), 2);
    let data = c1.read_all(&mut msg_queue.borrow_mut());
    assert_eq!(c1.size(&mut msg_queue.borrow_mut()), 0);
    assert_eq!(data.len(), 2);
    assert_eq!(data.get(0).unwrap().to_string(), "hello".to_string());
    assert_eq!(data.get(1).unwrap().to_string(), "world".to_string());
    for i in data {
        println!("{:?} ", i);
    }
}

#[test]
fn test_config() {
    let msg_queue = Rc::new(RefCell::new(MsgQueue::<String>::new()));
    assert_eq!(msg_queue.borrow_mut().is_running(), false);
    assert_eq!(msg_queue.borrow_mut().set_dynamic(4096), Ok(()));
    let _c1 = msg_queue.borrow_mut().add_consumer();
    let writer = msg_queue.borrow_mut().add_producer();
    assert_eq!(msg_queue.borrow_mut().is_running(), true);
    writer.write(
        &mut msg_queue.borrow_mut(),
        vec!["hello".to_string(), "world".to_string()],
    );
}

#[test]
#[should_panic]
fn test_config_and_get_panic() {
    let msg_queue = Rc::new(RefCell::new(MsgQueue::<String>::new()));
    assert_eq!(msg_queue.borrow_mut().is_running(), false);
    let _c1 = msg_queue.borrow_mut().add_consumer();
    let _writer = msg_queue.borrow_mut().add_producer();
    assert_eq!(msg_queue.borrow_mut().is_running(), true);
    msg_queue.borrow_mut().set_dynamic(4096).unwrap();
}

#[test]
fn it_works() {
    let mut msg_queue: MsgQueue<u8> = MsgQueue::new();
    let control = msg_queue.get_consumer(7);
    println!("consumer id:{}", control.id());
    println!("exist:{}", msg_queue.get_consumer_count() == 1);
}

#[test]
fn test_msg_queue() {
    let mut msg_queue = MsgQueue::new();
    let mut control = msg_queue.get_consumer(7);
    let producer = msg_queue.add_producer();
    producer.write(&mut msg_queue, vec![0; 1000]);
    assert_eq!(control.size(&mut msg_queue), 1000);
    let data = control.read_all(&mut msg_queue);
    assert_eq!(control.size(&mut msg_queue), 0);
    assert_eq!(data.len(), 1000);
    let data = control.read(&mut msg_queue, 1000);
    assert_eq!(data.len(), 0);
}

#[test]
fn two_consumers_then_a_third() {
    let mut queue: MsgQueue<u8> = MsgQueue::new();
    let producer = queue.add_producer();
    let mut first = queue.add_consumer();
    let mut second = queue.add_consumer();
    assert_eq!(first.id(), 0);
    assert_eq!(second.id(), 1);
    producer.write(&mut queue, vec![1; 100]);
    assert_eq!(first.size(&mut queue), 100);
    assert_eq!(second.size(&mut queue), 100);
    let mut third = queue.add_consumer();
    assert_eq!(third.id(), 2);
    assert_eq!(third.size(&mut queue), 0);
    producer.write(&mut queue, vec![2; 100]);
    assert_eq!(first.size(&mut queue), 200);
    assert_eq!(second.size(&mut queue), 200);
    assert_eq!(third.size(&mut queue), 100);
    assert_eq!(third.read_all(&mut queue), vec![2; 100]);
    let mut expected = vec![1; 100];
    expected.extend(vec![2; 100]);
    assert_eq!(first.read_all(&mut queue), expected);
    assert_eq!(second.size(&mut queue), 200);
}

#[test]
fn writes_before_registration_are_not_replayed() {
    let mut queue: MsgQueue<u32> = MsgQueue::new();
    let producer = queue.add_producer();
    producer.write(&mut queue, vec![1, 2, 3]);
    producer.write(&mut queue, vec![4]);
    assert_eq!(queue.get_consumer_count(), 0);
    let mut late = queue.get_consumer(42);
    assert_eq!(late.size(&mut queue), 0);
    assert_eq!(late.read_all(&mut queue), Vec::<u32>::new());
    producer.write(&mut queue, vec![5, 6]);
    assert_eq!(late.read_all(&mut queue), vec![5, 6]);
}

#[test]
fn fresh_queue_is_idle_and_empty() {
    let queue: MsgQueue<u8> = MsgQueue::new();
    assert_eq!(queue.is_running(), false);
    assert_eq!(queue.get_consumer_count(), 0);
    assert!(queue.has_serial_left());
    assert!(queue.accepts(u64::MAX));
}

#[test]
fn producer_handle_locks_the_configuration() {
    let mut queue: MsgQueue<u8> = MsgQueue::new();
    let _producer = queue.add_producer();
    assert_eq!(queue.is_running(), true);
    assert_eq!(queue.get_consumer_count(), 0);
    assert_eq!(queue.set_fixed(16, 4), Err(ConfigError::Running));
}

#[test]
fn configure_after_a_consumer_is_refused_and_changes_nothing() {
    let mut queue: MsgQueue<u32> = MsgQueue::new();
    assert_eq!(queue.set_dynamic(4), Ok(()));
    let producer = queue.add_producer();
    let mut first = queue.add_consumer();
    assert_eq!(queue.set_fixed(4, 2), Err(ConfigError::Running));
    assert_eq!(queue.set_dynamic(1024), Err(ConfigError::Running));
    let mut second = queue.add_consumer();
    producer.write(&mut queue, (0..100).collect());
    assert_eq!(first.size(&mut queue), 100);
    assert_eq!(second.size(&mut queue), 100);
    assert_eq!(second.read_all(&mut queue), (0..100).collect::<Vec<u32>>());
}

#[test]
fn config_error_says_why() {
    assert_eq!(
        ConfigError::Running.message(),
        "Rb is running, please config before running"
    );
}

#[test]
fn fixed_configuration_governs_new_consumers() {
    let mut queue: MsgQueue<u32> = MsgQueue::new();
    assert_eq!(queue.set_fixed(4, 3), Ok(()));
    let producer = queue.add_producer();
    let mut reader = queue.add_consumer();
    producer.write(&mut queue, (0..20).collect());
    assert_eq!(reader.size(&mut queue), 11);
    assert_eq!(reader.read_all(&mut queue), (9..20).collect::<Vec<u32>>());
}

#[test]
fn last_configuration_before_the_lock_wins() {
    let mut queue: MsgQueue<u32> = MsgQueue::new();
    assert_eq!(queue.set_dynamic(8), Ok(()));
    assert_eq!(queue.set_fixed(2, 2), Ok(()));
    let producer = queue.add_producer();
    let mut reader = queue.add_consumer();
    producer.write(&mut queue, (0..10).collect());
    assert_eq!(reader.read_all(&mut queue), vec![7, 8, 9]);
}

#[test]
fn getting_a_consumer_twice_keeps_its_records() {
    let mut queue: MsgQueue<u32> = MsgQueue::new();
    let producer = queue.add_producer();
    let mut reader = queue.get_consumer(5);
    producer.write(&mut queue, vec![1, 2, 3]);
    let mut again = queue.get_consumer(5);
    assert_eq!(queue.get_consumer_count(), 1);
    assert_eq!(again.size(&mut queue), 3);
    assert_eq!(reader.size(&mut queue), 3);
    assert_eq!(again.read(&mut queue, 2), vec![1, 2]);
    assert_eq!(reader.read_all(&mut queue), vec![3]);
}

#[test]
fn serial_ids_attach_to_buffers_that_exist() {
    let mut queue: MsgQueue<u32> = MsgQueue::new();
    let producer = queue.add_producer();
    let mut by_id = queue.get_consumer(0);
    producer.write(&mut queue, vec![9]);
    let mut by_serial = queue.add_consumer();
    assert_eq!(by_serial.id(), 0);
    assert_eq!(queue.get_consumer_count(), 1);
    assert_eq!(by_serial.size(&mut queue), 1);
    assert_eq!(by_id.read_all(&mut queue), vec![9]);
}

#[test]
fn deleted_consumer_is_gone_and_comes_back_empty() {
    let mut queue: MsgQueue<u32> = MsgQueue::new();
    let producer = queue.add_producer();
    let mut first = queue.add_consumer();
    let mut second = queue.add_consumer();
    producer.write(&mut queue, vec![1, 2]);
    queue.delete_consumer(first.id());
    assert_eq!(queue.get_consumer_count(), 1);
    queue.delete_consumer(77);
    assert_eq!(queue.get_consumer_count(), 1);
    producer.write(&mut queue, vec![3]);
    assert_eq!(second.read_all(&mut queue), vec![1, 2, 3]);
    assert_eq!(first.size(&mut queue), 0);
    assert_eq!(queue.get_consumer_count(), 2);
    producer.write(&mut queue, vec![4]);
    assert_eq!(first.read_all(&mut queue), vec![4]);
}

#[test]
fn write_with_no_consumer_is_a_no_op() {
    let mut queue: MsgQueue<u8> = MsgQueue::new();
    let producer = queue.add_producer();
    producer.write(&mut queue, vec![1; 10_000]);
    assert_eq!(queue.get_consumer_count(), 0);
}

#[test]
fn queue_accepts_until_growth_cannot_be_counted() {
    let mut queue: MsgQueue<u8> = MsgQueue::new();
    assert_eq!(queue.set_dynamic(8), Ok(()));
    assert!(queue.accepts(u64::MAX));
    let _reader = queue.add_consumer();
    assert!(queue.accepts(1000));
    assert!(!queue.accepts(u64::MAX));
}

#[test]
fn registry_creates_buffers_from_the_template() {
    let mut registry: MsgQueueInner<u32> = MsgQueueInner::new();
    assert_eq!(registry.count(), 0);
    registry.add_buffer_cache(3);
    assert_eq!(registry.count(), 1);
    assert_eq!(registry.get_buffer_cache(3).unwrap().mode(), BufferCacheMode::Fixed);
    assert_eq!(registry.get_buffer_cache(3).unwrap().capacity(), 8191);
    registry.set_dynamic(32);
    assert_eq!(registry.get_buffer_cache(3).unwrap().mode(), BufferCacheMode::Fixed);
    assert_eq!(registry.get_buffer_cache(4).unwrap().mode(), BufferCacheMode::Dynamic);
    assert_eq!(registry.get_buffer_cache(4).unwrap().capacity(), 64);
    registry.set_fixed(10, 5);
    assert_eq!(registry.get_buffer_cache(5).unwrap().mode(), BufferCacheMode::Fixed);
    assert_eq!(registry.get_buffer_cache(5).unwrap().capacity(), 49);
    assert_eq!(registry.count(), 3);
    let mut ids = registry.ids();
    ids.sort();
    assert_eq!(ids, vec![3, 4, 5]);
}

#[test]
fn registry_ensure_is_idempotent() {
    let mut registry: MsgQueueInner<u32> = MsgQueueInner::new();
    registry.add_buffer_cache(1);
    registry.get_buffer_cache(1).unwrap().write(vec![1, 2, 3]);
    registry.add_buffer_cache(1);
    registry.add_buffer_cache(1);
    assert_eq!(registry.count(), 1);
    assert_eq!(registry.size(1), 3);
    assert_eq!(registry.read(1, 10), vec![1, 2, 3]);
}

#[test]
fn registry_broadcast_reaches_every_buffer() {
    let mut registry: MsgQueueInner<u32> = MsgQueueInner::new();
    registry.set_fixed(2, 2);
    registry.add_buffer_cache(1);
    registry.set_dynamic(2);
    registry.add_buffer_cache(2);
    assert!(registry.accepts(6));
    registry.broadcast(&vec![1, 2, 3, 4, 5, 6]);
    assert_eq!(registry.size(1), 3);
    assert_eq!(registry.size(2), 6);
    assert_eq!(registry.read(1, 10), vec![4, 5, 6]);
    assert_eq!(registry.read(2, 4), vec![1, 2, 3, 4]);
    assert_eq!(registry.read(2, 4), vec![5, 6]);
    registry.delete_buffer_cache(1);
    registry.delete_buffer_cache(9);
    assert_eq!(registry.count(), 1);
    assert_eq!(registry.size(1), 0);
    assert_eq!(registry.count(), 2);
}
