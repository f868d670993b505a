use rustleak::engine::parse_count_response;
use rustleak::engine::pick_record_type;
use rustleak::engine::plan_upload;
use rustleak::engine::random_record_type;
use rustleak::engine::DownloadBuffer;
use rustleak::engine::DownloadError;
use rustleak::engine::RecordType;
use rustleak::engine::TransferTask;
use rustleak::engine::WorkerPool;

#[test]
fn record_type_weights() {
    assert_eq!(pick_record_type(0), RecordType::A);
    assert_eq!(pick_record_type(29), RecordType::A);
    assert_eq!(pick_record_type(30), RecordType::Aaaa);
    assert_eq!(pick_record_type(59), RecordType::Aaaa);
    assert_eq!(pick_record_type(60), RecordType::Cname);
    assert_eq!(pick_record_type(89), RecordType::Cname);
    assert_eq!(pick_record_type(90), RecordType::Txt);
    assert_eq!(pick_record_type(99), RecordType::Txt);
    assert_eq!(pick_record_type(100), RecordType::A);
    assert_eq!(pick_record_type(229), RecordType::A);
}

#[test]
fn random_record_type_is_never_any() {
    for _ in 0..200 {
        assert_ne!(random_record_type(), RecordType::Any);
    }
}

#[test]
fn upload_plan_builds_every_name() {
    let payload = b"HELLO-WORLD-12345".to_vec();
    let plan = plan_upload(&payload, &b"job1".to_vec(), &b"example.com".to_vec(), 6);
    assert_eq!(plan.len(), 3);
    assert_eq!(plan[0].seq, 0);
    assert_eq!(plan[1].seq, 1);
    assert_eq!(plan[2].seq, 2);
    // "HELLO-" / "WORLD-" / "12345", each encoded then framed.
    assert_eq!(plan[0].name, b"UPLOAD.JBCUYTCPFU.0.3.job1.example.com".to_vec());
    assert_eq!(plan[0].fragment, b"JBCUYTCPFU".to_vec());
    assert_eq!(plan[1].name, b"UPLOAD.K5HVETCEFU.1.3.job1.example.com".to_vec());
    assert_eq!(plan[2].fragment, b"GEZDGNBV".to_vec());
    assert_eq!(plan[2].name.windows(4).filter(|w| w == b".2.3").count(), 1);
}

#[test]
fn empty_payload_plans_no_requests() {
    let plan = plan_upload(&Vec::new(), &b"job1".to_vec(), &b"example.com".to_vec(), 39);
    assert_eq!(plan.len(), 0);
}

#[test]
fn count_response_reads_numbers_and_eof() {
    assert_eq!(parse_count_response(&b"17".to_vec()), Some(17));
    assert_eq!(parse_count_response(&b"0".to_vec()), Some(0));
    assert_eq!(parse_count_response(&b"EOF".to_vec()), Some(0));
    assert_eq!(parse_count_response(&b"x17".to_vec()), None);
    assert_eq!(parse_count_response(&b"".to_vec()), None);
}

#[test]
fn retry_budget_is_spent_then_fatal() {
    let mut task = TransferTask::new(4, 3);
    assert!(!task.fail());
    assert!(!task.fail());
    assert!(task.fail());
    assert_eq!(task.attempts, 3);
}

#[test]
fn success_retires_the_task() {
    let mut task = TransferTask::new(0, 10);
    assert!(!task.fail());
    task.succeed();
    assert!(task.done);
    assert_eq!(task.attempts, 1);
}

#[test]
fn pool_admits_at_most_width() {
    let mut pool = WorkerPool::new(5, 2);
    assert_eq!(pool.try_start(), Some(0));
    assert_eq!(pool.try_start(), Some(1));
    assert_eq!(pool.try_start(), None);
    assert_eq!(pool.in_flight(), 2);
    pool.finish();
    assert_eq!(pool.try_start(), Some(2));
    assert_eq!(pool.try_start(), None);
    pool.finish();
    pool.finish();
    assert_eq!(pool.try_start(), Some(3));
    assert_eq!(pool.try_start(), Some(4));
    assert_eq!(pool.try_start(), None);
    pool.finish();
    pool.finish();
    assert!(pool.all_done());
}

#[test]
fn buffer_accepts_answers_in_any_order() {
    let mut buffer = DownloadBuffer::new(3);
    assert!(!buffer.is_complete());
    buffer.place(2, b"GEZDGNA".to_vec());
    buffer.place(0, b"MZXW6".to_vec());
    assert!(!buffer.is_complete());
    buffer.place(1, b"MJQXE".to_vec());
    assert!(buffer.is_complete());
    // "foo" + "bar" + "1234" in slot order, not arrival order.
    assert_eq!(buffer.assemble(), Ok(b"foobar1234".to_vec()));
}

#[test]
fn assemble_reports_the_broken_slot() {
    let mut buffer = DownloadBuffer::new(2);
    buffer.place(1, b"MZXW6".to_vec());
    assert_eq!(buffer.assemble(), Err(DownloadError::MissingFragment { seq: 0 }));
    buffer.place(0, b"not base32!".to_vec());
    assert_eq!(buffer.assemble(), Err(DownloadError::InvalidFragment { seq: 0 }));
}

#[test]
fn empty_buffer_assembles_to_an_empty_payload() {
    let buffer = DownloadBuffer::new(0);
    assert!(buffer.is_complete());
    assert_eq!(buffer.assemble(), Ok(Vec::new()));
}
