use parking_lot::Mutex;
use resp_store::store::RedisStore;
use std::sync::Arc;

#[test]
fn concurrent_increments_are_all_counted() {
    let clients: usize = 8;
    let each: usize = 250;
    let runtime = tokio::runtime::Builder::new_multi_thread().worker_threads(4).build().unwrap();
    let store = Arc::new(Mutex::new(RedisStore::new_at(0)));
    let mut tasks = Vec::new();
    for _ in 0..clients {
        let store = Arc::clone(&store);
        tasks.push(runtime.spawn(async move {
            let mut replies = Vec::new();
            for _ in 0..each {
                replies.push(store.lock().incr(b"k", 0).unwrap());
                tokio::task::yield_now().await;
            }
            replies
        }));
    }
    let mut all: Vec<i64> = Vec::new();
    for task in tasks {
        all.extend(runtime.block_on(task).unwrap());
    }
    all.sort();
    let expected: Vec<i64> = (1..=(clients * each) as i64).collect();
    assert_eq!(all, expected);
    assert_eq!(store.lock().incr(b"k", 0), Ok((clients * each) as i64 + 1));
}
