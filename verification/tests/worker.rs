use rust_dispatcher::worker::{furfil_request, handle_message, startup_order, StartupOrder, SAMPLE_LEN};

#[test]
fn a_message_becomes_a_job_for_its_record() {
    let table = "requests".to_string();
    let job = handle_message(Some("rec42 def f(x): return x".to_string()), &table).unwrap();
    assert_eq!(job.table, "requests");
    assert_eq!(job.database_id, "rec42");
    assert_eq!(job.prompt, "def f(x): return x");
    assert_eq!(job.sample_len, SAMPLE_LEN);
    assert_eq!(SAMPLE_LEN, 500);
}

#[test]
fn a_closed_queue_stops_the_worker() {
    assert!(handle_message(None, &"requests".to_string()).is_none());
}

#[test]
fn a_failed_generation_writes_the_notice() {
    assert_eq!(furfil_request(None).output, "Error Generating output");
    assert_eq!(furfil_request(Some("/// doc".to_string())).output, "/// doc");
}

#[test]
fn lazy_workers_wait_for_a_message_before_loading() {
    assert_eq!(startup_order(true), StartupOrder::ReceiveThenLoad);
    assert_eq!(startup_order(false), StartupOrder::LoadThenServe);
}
