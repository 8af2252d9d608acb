use vimdow::neovim::codec::encode;
use vimdow::neovim::process::{CheckOutcome, NeovimProcess};
use vimdow::neovim::msgpack::{host_eq, HostValue};
use vimdow::neovim::value::TaggedValue;
use vimdow::neovim::{Dispatch, NeovimClient};

fn running_client() -> NeovimClient {
    let mut c = NeovimClient::new();
    assert!(!c.is_running());
    c.start();
    assert!(c.is_running());
    c
}

#[test]
fn msgids_count_up_from_zero() {
    let mut c = running_client();
    assert_eq!(c.request("nvim_get_current_buf", vec![]), 0);
    assert_eq!(c.request("nvim_get_current_buf", vec![]), 1);
    assert_eq!(c.request("nvim_command", vec![HostValue::Str("q".to_string())]), 2);
}

#[test]
fn request_without_a_process_is_minus_one() {
    let mut c = NeovimClient::new();
    assert_eq!(c.request("nvim_get_current_buf", vec![]), -1);
}

#[test]
fn queued_bytes_keep_call_order() {
    let mut c = running_client();
    c.request("alpha", vec![]);
    c.request("beta", vec![HostValue::Int(9)]);
    let first = c.pop_outgoing().unwrap();
    let second = c.pop_outgoing().unwrap();
    assert!(c.pop_outgoing().is_none());
    let expected_first = encode(&TaggedValue::Array(vec![
        TaggedValue::Int(0),
        TaggedValue::Int(0),
        TaggedValue::Str("alpha".to_string()),
        TaggedValue::Array(vec![]),
    ]));
    let expected_second = encode(&TaggedValue::Array(vec![
        TaggedValue::Int(0),
        TaggedValue::Int(1),
        TaggedValue::Str("beta".to_string()),
        TaggedValue::Array(vec![TaggedValue::Int(9)]),
    ]));
    assert_eq!(first, expected_first);
    assert_eq!(second, expected_second);
}

#[test]
fn attach_emits_the_linegrid_notification() {
    let mut c = running_client();
    assert!(c.attach(80, 24));
    let bytes = c.pop_outgoing().unwrap();
    let expected = encode(&TaggedValue::Array(vec![
        TaggedValue::Int(2),
        TaggedValue::Str("nvim_ui_attach".to_string()),
        TaggedValue::Array(vec![
            TaggedValue::Int(80),
            TaggedValue::Int(24),
            TaggedValue::Dict(vec![(
                TaggedValue::Str("ext_linegrid".to_string()),
                TaggedValue::Bool(true),
            )]),
        ]),
    ]));
    assert_eq!(bytes, expected);
}

#[test]
fn attach_without_a_process_fails() {
    let mut c = NeovimClient::new();
    assert!(!c.attach(80, 24));
}

fn response(id: i64, error: TaggedValue, result: TaggedValue) -> TaggedValue {
    TaggedValue::Array(vec![TaggedValue::Int(1), TaggedValue::Int(id), error, result])
}

#[test]
fn responses_to_all_requests_empty_the_outstanding_set() {
    let mut c = running_client();
    c.request("one", vec![]);
    c.request("two", vec![]);
    let out = c.process(vec![
        response(0, TaggedValue::Nil, TaggedValue::Nil),
        response(1, TaggedValue::Nil, TaggedValue::Nil),
    ]);
    assert_eq!(out.len(), 2);
    assert!(matches!(out[0], Dispatch::Response(0, _, _)));
    assert!(matches!(out[1], Dispatch::Response(1, _, _)));
    // A third response to an already-answered id is a protocol violation.
    let out = c.process(vec![response(0, TaggedValue::Nil, TaggedValue::Nil)]);
    assert!(matches!(out[0], Dispatch::Dropped(_)));
}

#[test]
fn a_response_with_an_unknown_id_is_dropped() {
    let mut c = running_client();
    c.request("one", vec![]);
    let out = c.process(vec![response(999, TaggedValue::Nil, TaggedValue::Nil)]);
    assert_eq!(out.len(), 1);
    assert!(matches!(out[0], Dispatch::Dropped(_)));
}

#[test]
fn a_response_carries_its_projected_payloads() {
    let mut c = running_client();
    assert_eq!(c.request("nvim_get_current_buf", vec![]), 0);
    let buffer_handle = TaggedValue::Ext(0, encode(&TaggedValue::Int(7)));
    let out = c.process(vec![response(0, TaggedValue::Nil, buffer_handle)]);
    assert_eq!(out.len(), 1);
    match &out[0] {
        Dispatch::Response(0, error, result) => {
            assert!(host_eq(error, &HostValue::Nil));
            assert!(host_eq(
                result,
                &HostValue::BufferHandle(vimdow::neovim::ext_types::Buffer(7))
            ));
        }
        _ => panic!("expected a response dispatch"),
    }
}

#[test]
fn notifications_dispatch_with_their_params() {
    let mut c = running_client();
    let flush = TaggedValue::Array(vec![
        TaggedValue::Str("flush".to_string()),
        TaggedValue::Array(vec![]),
    ]);
    let msg = TaggedValue::Array(vec![
        TaggedValue::Int(2),
        TaggedValue::Str("redraw".to_string()),
        TaggedValue::Array(vec![flush]),
    ]);
    let out = c.process(vec![msg]);
    assert_eq!(out.len(), 1);
    match &out[0] {
        Dispatch::Event(method, params) => {
            assert_eq!(method, "redraw");
            assert_eq!(params.len(), 1);
            let expected = HostValue::Array(vec![
                HostValue::Str("flush".to_string()),
                HostValue::Array(vec![]),
            ]);
            assert!(host_eq(&params[0], &expected));
        }
        _ => panic!("expected a notification dispatch"),
    }
}

#[test]
fn an_unknown_type_tag_is_dropped_and_later_messages_still_dispatch() {
    let mut c = running_client();
    let bogus = TaggedValue::Array(vec![TaggedValue::Int(5), TaggedValue::Nil]);
    let note = TaggedValue::Array(vec![
        TaggedValue::Int(2),
        TaggedValue::Str("ping".to_string()),
        TaggedValue::Array(vec![]),
    ]);
    let out = c.process(vec![bogus, note]);
    assert_eq!(out.len(), 2);
    assert!(matches!(out[0], Dispatch::Dropped(_)));
    assert!(matches!(&out[1], Dispatch::Event(m, _) if m == "ping"));
}

#[test]
fn an_editor_request_is_accepted_but_unanswered() {
    let mut c = running_client();
    let req = TaggedValue::Array(vec![
        TaggedValue::Int(0),
        TaggedValue::Int(3),
        TaggedValue::Str("anything".to_string()),
        TaggedValue::Array(vec![]),
    ]);
    let out = c.process(vec![req]);
    assert!(matches!(out[0], Dispatch::UnhandledRequest));
    assert!(c.pop_outgoing().is_none());
}

#[test]
fn a_non_array_message_is_dropped() {
    let mut c = running_client();
    let out = c.process(vec![TaggedValue::Int(17)]);
    assert!(matches!(out[0], Dispatch::Dropped(_)));
}

#[test]
fn a_burst_drains_whole_and_in_order() {
    let mut c = running_client();
    let mut burst = Vec::new();
    for i in 0..10_000i64 {
        burst.push(TaggedValue::Array(vec![
            TaggedValue::Int(2),
            TaggedValue::Str("tick".to_string()),
            TaggedValue::Array(vec![TaggedValue::Int(i)]),
        ]));
    }
    let out = c.process(burst);
    assert_eq!(out.len(), 10_000);
    for (i, d) in out.iter().enumerate() {
        match d {
            Dispatch::Event(method, params) => {
                assert_eq!(method, "tick");
                assert!(host_eq(&params[0], &HostValue::Int(i as i64)));
            }
            _ => panic!("expected a notification dispatch"),
        }
    }
}

#[test]
fn kill_process_stops_the_client() {
    let mut c = running_client();
    c.kill_process();
    assert!(!c.is_running());
    assert_eq!(c.request("anything", vec![]), -1);
}

#[test]
fn var_request_assigns_ids_and_queues_bytes() {
    let mut np = NeovimProcess::new();
    assert_eq!(np.var_request("nvim_input", &vec![HostValue::Str("<CR>".to_string())]), 0);
    assert_eq!(np.var_request("nvim_command", &vec![]), 1);
    assert_eq!(np.pending_len(), 2);
    assert!(np.is_pending(0) && np.is_pending(1));
    let bytes = np.pop_outgoing().unwrap();
    let expected = encode(&TaggedValue::Array(vec![
        TaggedValue::Int(0),
        TaggedValue::Int(0),
        TaggedValue::Str("nvim_input".to_string()),
        TaggedValue::Array(vec![TaggedValue::Str("<CR>".to_string())]),
    ]));
    assert_eq!(bytes, expected);
    // The transport bookkeeping retires answered ids and flags unknown ones.
    let ok = np.check(response(0, TaggedValue::Nil, TaggedValue::Nil));
    assert!(matches!(ok, CheckOutcome::Accepted(_)));
    assert_eq!(np.pending_len(), 1);
    let bad = np.check(response(7, TaggedValue::Nil, TaggedValue::Nil));
    assert!(matches!(bad, CheckOutcome::Violation(_)));
    assert_eq!(np.pending_len(), 1);
}
