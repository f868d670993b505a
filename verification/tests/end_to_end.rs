//! Whole-channel scenarios: the client engine's names fed straight into the
//! server router, with no network in between.

use rustleak::engine::parse_count_response;
use rustleak::engine::plan_upload;
use rustleak::engine::DownloadBuffer;
use rustleak::engine::UploadRequest;
use rustleak::engine::WorkerPool;
use rustleak::naming::build_download_count_name;
use rustleak::naming::build_download_fragment_name;
use rustleak::router::route_query;
use rustleak::router::RouteAction;
use rustleak::store::SessionStore;

fn zone() -> Vec<u8> {
    b"tunnel.example.com".to_vec()
}

fn domain() -> Vec<u8> {
    b"tunnel.example.com".to_vec()
}

fn answer(store: &mut SessionStore, name: &Vec<u8>) -> Vec<u8> {
    match route_query(store, &zone(), name, true, true) {
        RouteAction::AnswerText { message } => message,
        other => panic!("expected a text answer for {:?}, got {:?}", name, other),
    }
}

/// Run a full download against the server store and reassemble the payload.
fn download(store: &mut SessionStore, code: &Vec<u8>) -> Vec<u8> {
    let count_text = answer(store, &build_download_count_name(code, &domain()));
    let total = parse_count_response(&count_text).expect("unreadable count");
    let mut buffer = DownloadBuffer::new(total);
    for seq in 0..total {
        let text = answer(store, &build_download_fragment_name(code, seq, &domain()));
        buffer.place(seq, text);
    }
    assert!(buffer.is_complete());
    buffer.assemble().expect("payload must reassemble")
}

/// Send every planned fragment through a bounded pool, completing in-flight
/// lookups in the order `pick` chooses, and answer each through the router.
fn upload_with_pool(
    store: &mut SessionStore,
    plan: &[UploadRequest],
    width: usize,
    pick: impl Fn(usize) -> usize,
) {
    let mut pool = WorkerPool::new(plan.len(), width);
    let mut in_flight: Vec<usize> = Vec::new();
    let mut step = 0usize;
    while !pool.all_done() {
        while let Some(seq) = pool.try_start() {
            in_flight.push(seq);
        }
        assert!(in_flight.len() <= width);
        let chosen = in_flight.remove(pick(step) % in_flight.len());
        step += 1;
        let reply = answer(store, &plan[chosen].name);
        assert_eq!(reply, b"OK".to_vec());
        pool.finish();
    }
    assert!(in_flight.is_empty());
}

#[test]
fn scenario_small_payload_three_chunks() {
    let payload = b"HELLO-WORLD-12345".to_vec();
    let code = b"job1".to_vec();
    let plan = plan_upload(&payload, &code, &domain(), 6);
    assert_eq!(plan.len(), 3);
    let mut store = SessionStore::new();
    upload_with_pool(&mut store, &plan, 2, |_| 0);
    let got = download(&mut store, &code);
    assert_eq!(got, payload);
}

#[test]
fn scenario_empty_payload() {
    let payload: Vec<u8> = Vec::new();
    let code = b"empty1".to_vec();
    let plan = plan_upload(&payload, &code, &domain(), 39);
    assert_eq!(plan.len(), 0);
    let mut store = SessionStore::new();
    // Nothing to upload: the server never hears of the code, so the count
    // query answers EOF, which the engine reads as zero fragments.
    let count_text = answer(&mut store, &build_download_count_name(&code, &domain()));
    assert_eq!(count_text, b"EOF".to_vec());
    let got = download(&mut store, &code);
    assert_eq!(got, payload);
}

#[test]
fn scenario_short_name_rejected_store_untouched() {
    let mut store = SessionStore::new();
    let reply = answer(&mut store, &b"upload.ab.cd".to_vec());
    assert_eq!(reply, b"ERROR: Invalid request format".to_vec());
    // No session was created and no slot filled.
    let count_text = answer(&mut store, &build_download_count_name(&b"ab".to_vec(), &domain()));
    assert_eq!(count_text, b"EOF".to_vec());
    let count_text = answer(&mut store, &build_download_count_name(&b"cd".to_vec(), &domain()));
    assert_eq!(count_text, b"EOF".to_vec());
}

#[test]
fn concurrency_width_does_not_change_the_session() {
    let payload: Vec<u8> = (0..240u8).map(|i| i.wrapping_mul(31)).collect();
    let code = b"wide".to_vec();
    let plan = plan_upload(&payload, &code, &domain(), 39);
    assert!(plan.len() > 4);

    // Width 1: strictly sequential, in slot order.
    let mut store_narrow = SessionStore::new();
    upload_with_pool(&mut store_narrow, &plan, 1, |_| 0);

    // Width 8: tasks retire in a scrambled order.
    let mut store_wide = SessionStore::new();
    upload_with_pool(&mut store_wide, &plan, 8, |step| step.wrapping_mul(5) + 3);

    // The final session contents are identical either way.
    let narrow = download(&mut store_narrow, &code);
    let wide = download(&mut store_wide, &code);
    assert_eq!(narrow, wide);
    assert_eq!(narrow, payload);
}
