use rustleak::router::route_query;
use rustleak::router::RouteAction;
use rustleak::store::SessionStore;

fn zone() -> Vec<u8> {
    b"tunnel.example.com".to_vec()
}

fn text(action: RouteAction) -> Vec<u8> {
    match action {
        RouteAction::AnswerText { message } => message,
        other => panic!("expected a text answer, got {:?}", other),
    }
}

#[test]
fn non_query_requests_are_refused() {
    let mut store = SessionStore::new();
    let name = b"upload.AA.0.1.job1.tunnel.example.com".to_vec();
    assert_eq!(route_query(&mut store, &zone(), &name, false, true), RouteAction::Refuse);
    assert_eq!(route_query(&mut store, &zone(), &name, true, false), RouteAction::Refuse);
    // The refused request never reached the store.
    assert_eq!(store.count(&b"job1".to_vec()), None);
}

#[test]
fn own_zone_names_draw_the_fixed_address() {
    let mut store = SessionStore::new();
    let name = b"tunnel.example.com".to_vec();
    let action = route_query(&mut store, &zone(), &name, true, true);
    assert_eq!(action, RouteAction::AnswerAddress { octets: vec![82, 165, 140, 49] });
}

#[test]
fn unrecognized_names_are_forwarded() {
    let mut store = SessionStore::new();
    let name = b"www.google.com".to_vec();
    assert_eq!(route_query(&mut store, &zone(), &name, true, true), RouteAction::Forward);
}

#[test]
fn upload_is_acknowledged_and_errors_are_specific() {
    let mut store = SessionStore::new();
    let ok = route_query(
        &mut store,
        &zone(),
        &b"upload.AA.0.2.job1.tunnel.example.com".to_vec(),
        true,
        true,
    );
    assert_eq!(text(ok), b"OK".to_vec());
    let dup = route_query(
        &mut store,
        &zone(),
        &b"upload.BB.0.2.job1.tunnel.example.com".to_vec(),
        true,
        true,
    );
    assert_eq!(text(dup), b"ERROR: Duplicate sequence".to_vec());
    let oob = route_query(
        &mut store,
        &zone(),
        &b"upload.CC.2.2.job1.tunnel.example.com".to_vec(),
        true,
        true,
    );
    assert_eq!(text(oob), b"ERROR: Invalid sequence".to_vec());
}

#[test]
fn short_upload_name_is_rejected_and_store_untouched() {
    let mut store = SessionStore::new();
    let action = route_query(&mut store, &zone(), &b"upload.a.b".to_vec(), true, true);
    assert_eq!(text(action), b"ERROR: Invalid request format".to_vec());
    // No session was created and no slot filled: a count query for any code
    // still answers EOF.
    let count = route_query(
        &mut store,
        &zone(),
        &b"download.a.tunnel.example.com".to_vec(),
        true,
        true,
    );
    assert_eq!(text(count), b"EOF".to_vec());
    let count = route_query(
        &mut store,
        &zone(),
        &b"download.b.tunnel.example.com".to_vec(),
        true,
        true,
    );
    assert_eq!(text(count), b"EOF".to_vec());
}

#[test]
fn download_count_and_fragments() {
    let mut store = SessionStore::new();
    route_query(
        &mut store,
        &zone(),
        &b"upload.MZXW6.0.2.job1.tunnel.example.com".to_vec(),
        true,
        true,
    );
    let count = route_query(
        &mut store,
        &zone(),
        &b"download.job1.tunnel.example.com".to_vec(),
        true,
        true,
    );
    assert_eq!(text(count), b"2".to_vec());
    let frag = route_query(
        &mut store,
        &zone(),
        &b"download.job1.0.tunnel.example.com".to_vec(),
        true,
        true,
    );
    assert_eq!(text(frag), b"MZXW6".to_vec());
    let empty = route_query(
        &mut store,
        &zone(),
        &b"download.job1.1.tunnel.example.com".to_vec(),
        true,
        true,
    );
    assert_eq!(text(empty), b"ERROR: Empty fragment".to_vec());
    let oob = route_query(
        &mut store,
        &zone(),
        &b"download.job1.7.tunnel.example.com".to_vec(),
        true,
        true,
    );
    assert_eq!(text(oob), b"ERROR: Invalid sequence number".to_vec());
    let unknown = route_query(
        &mut store,
        &zone(),
        &b"download.nosuch.tunnel.example.com".to_vec(),
        true,
        true,
    );
    assert_eq!(text(unknown), b"EOF".to_vec());
}

#[test]
fn short_download_name_is_rejected() {
    let mut store = SessionStore::new();
    let action = route_query(&mut store, &zone(), &b"download.job1".to_vec(), true, true);
    assert_eq!(text(action), b"ERROR: Invalid request format".to_vec());
}

#[test]
fn zone_check_precedes_verb_dispatch() {
    let mut store = SessionStore::new();
    // A name that begins with the zone is answered as the zone, even if a
    // verb follows further in; only names outside the zone reach the verbs.
    let name = b"tunnel.example.com.upload".to_vec();
    let action = route_query(&mut store, &zone(), &name, true, true);
    assert_eq!(action, RouteAction::AnswerAddress { octets: vec![82, 165, 140, 49] });
}

#[test]
fn close_answers_ok_or_not_found() {
    let mut store = SessionStore::new();
    route_query(
        &mut store,
        &zone(),
        &b"upload.AA.0.1.job1.tunnel.example.com".to_vec(),
        true,
        true,
    );
    let closed = route_query(
        &mut store,
        &zone(),
        &b"close.job1.tunnel.example.com".to_vec(),
        true,
        true,
    );
    assert_eq!(text(closed), b"OK".to_vec());
    let again = route_query(
        &mut store,
        &zone(),
        &b"close.job1.tunnel.example.com".to_vec(),
        true,
        true,
    );
    assert_eq!(text(again), b"ERROR: UID not found".to_vec());
}
