use rquant::data::fetch::{classify, Attempt, Next, RetryState};
use rquant::error::Error;

fn bar_list(n: usize) -> Vec<u32> {
    (0..n as u32).collect()
}

#[test]
fn classify_truncated_body_is_retryable() {
    let parsed: Result<Vec<u32>, Error> = Err(Error::Data("sina bad json: EOF while parsing".to_string()));
    assert!(matches!(classify(Ok(parsed)), Attempt::Retry(_)));
}

#[test]
fn classify_network_error_is_retryable() {
    let r: Result<Result<Vec<u32>, Error>, Error> = Err(Error::Data("net".into()));
    match classify(r) {
        Attempt::Retry(m) => assert_eq!(m, "data error: net"),
        _ => panic!("expected Retry"),
    }
}

#[test]
fn classify_valid_empty_is_not_retried() {
    assert!(matches!(classify(Ok(Ok(bar_list(0)))), Attempt::Empty));
}

#[test]
fn classify_good_body_is_done() {
    match classify(Ok(Ok(bar_list(1)))) {
        Attempt::Done(bars) => assert_eq!(bars.len(), 1),
        _ => panic!("expected Done"),
    }
}

fn drive_sina(max_retries: u32, outcomes: Vec<Attempt<Vec<u32>>>) -> (usize, Result<Vec<u32>, Error>) {
    let mut st = RetryState::new(max_retries);
    let mut tries = 0;
    for a in outcomes {
        tries += 1;
        match st.sina_step("sh600000", a) {
            Next::Finished(r) => return (tries, r),
            Next::Again(s) => st = s,
        }
    }
    panic!("ran out of outcomes")
}

#[test]
fn sina_retries_then_succeeds() {
    let (tries, r) = drive_sina(2, vec![Attempt::Retry("a".into()), Attempt::Retry("b".into()), Attempt::Done(vec![7])]);
    assert_eq!(tries, 3);
    assert_eq!(r.unwrap(), vec![7]);
}

#[test]
fn sina_gives_up_after_max_retries_plus_one() {
    let (tries, r) = drive_sina(1, vec![Attempt::Retry("a".into()), Attempt::Retry("b".into()), Attempt::Done(vec![7])]);
    assert_eq!(tries, 2);
    match r {
        Err(Error::Data(m)) => assert_eq!(m, "sina fetch failed after retries: b"),
        other => panic!("unexpected {other:?}"),
    }
}

#[test]
fn sina_empty_answer_is_final() {
    let (tries, r) = drive_sina(5, vec![Attempt::Empty]);
    assert_eq!(tries, 1);
    match r {
        Err(Error::Data(m)) => assert_eq!(m, "sina returned no bars for sh600000"),
        other => panic!("unexpected {other:?}"),
    }
}

#[test]
fn tencent_step_accepts_empty_and_reports_last_error() {
    let st = RetryState::new(0);
    match st.tencent_step(Ok(Ok(Vec::<u32>::new()))) {
        Next::Finished(Ok(v)) => assert!(v.is_empty()),
        _ => panic!("expected finished"),
    }
    match st.tencent_step::<u32>(Ok(Err(Error::Data("tencent: no data for 'x'".into())))) {
        Next::Finished(Err(Error::Data(m))) => assert_eq!(m, "tencent fetch failed after retries: data error: tencent: no data for 'x'"),
        _ => panic!("expected failure"),
    }
    match RetryState::new(2).tencent_step::<u32>(Err(Error::Data("x".into()))) {
        Next::Again(s) => assert_eq!((s.attempt, s.max_retries), (1, 2)),
        _ => panic!("expected retry"),
    }
}

#[test]
fn llm_step_wraps_last_error() {
    match RetryState::new(0).llm_step::<u8>(Err(Error::Eval("http status 500".into()))) {
        Next::Finished(Err(Error::Eval(m))) => assert_eq!(m, "eval error: http status 500"),
        _ => panic!("expected failure"),
    }
    assert!(matches!(RetryState::new(0).llm_step(Ok(3u8)), Next::Finished(Ok(3))));
}
