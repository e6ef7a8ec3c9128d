use dropbox_cp::session::{
    fill_after_read, fill_begin, plan_upload_session, session_buffer_len, upload_method,
    FillProgress, SessionStep, UploadMethod, MAX_CHUNK,
};

#[test]
fn chunk_limit_is_150_mib() {
    assert_eq!(MAX_CHUNK, 157_286_400);
}

#[test]
fn method_by_length() {
    assert_eq!(upload_method(0), UploadMethod::SingleRequest);
    assert_eq!(upload_method(MAX_CHUNK), UploadMethod::SingleRequest);
    assert_eq!(upload_method(MAX_CHUNK + 1), UploadMethod::Session);
}

#[test]
fn buffer_length() {
    assert_eq!(session_buffer_len(0), 1);
    assert_eq!(session_buffer_len(10), 10);
    assert_eq!(session_buffer_len(MAX_CHUNK * 3), MAX_CHUNK as usize);
}

#[test]
fn session_for_just_over_one_chunk() {
    let len = MAX_CHUNK + 5;
    assert_eq!(
        plan_upload_session(len),
        vec![
            SessionStep::Start { size: MAX_CHUNK },
            SessionStep::Append { offset: MAX_CHUNK, size: 5, close: true },
            SessionStep::Finish { offset: len },
        ]
    );
}

#[test]
fn session_for_exact_multiple_closes_with_a_full_chunk() {
    let len = MAX_CHUNK * 3;
    assert_eq!(
        plan_upload_session(len),
        vec![
            SessionStep::Start { size: MAX_CHUNK },
            SessionStep::Append { offset: MAX_CHUNK, size: MAX_CHUNK, close: false },
            SessionStep::Append { offset: 2 * MAX_CHUNK, size: MAX_CHUNK, close: true },
            SessionStep::Finish { offset: len },
        ]
    );
}

#[test]
fn session_chunks_cover_the_file() {
    for len in [MAX_CHUNK + 1, 2 * MAX_CHUNK + 17, 7 * MAX_CHUNK - 1] {
        let steps = plan_upload_session(len);
        let mut sent = 0u64;
        let mut closes = 0;
        for s in &steps {
            match *s {
                SessionStep::Start { size } => {
                    assert_eq!(sent, 0);
                    sent += size;
                }
                SessionStep::Append { offset, size, close } => {
                    assert_eq!(offset, sent);
                    assert!(size >= 1 && size <= MAX_CHUNK);
                    sent += size;
                    if close {
                        closes += 1;
                    }
                }
                SessionStep::Finish { offset } => assert_eq!(offset, len),
            }
        }
        assert_eq!(sent, len);
        assert_eq!(closes, 1);
    }
}

#[test]
fn small_length_session_has_no_append() {
    assert_eq!(
        plan_upload_session(3),
        vec![SessionStep::Start { size: 3 }, SessionStep::Finish { offset: 3 }]
    );
}

#[test]
fn filling_a_buffer() {
    assert_eq!(fill_begin(0), FillProgress::Filled);
    assert_eq!(fill_begin(8), FillProgress::NeedMore { filled: 0 });
    assert_eq!(fill_after_read(0, 8, 3), FillProgress::NeedMore { filled: 3 });
    assert_eq!(fill_after_read(3, 8, 5), FillProgress::Filled);
    assert_eq!(fill_after_read(3, 8, 0), FillProgress::ShortRead);
}
