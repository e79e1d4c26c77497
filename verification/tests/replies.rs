use nodenet::error::Error;
use nodenet::expr::Expr;
use nodenet::server::{
    dispatch, get_version, make_error_reply, make_quoted_error_reply, make_reply, Connection,
    NextAction, NodeCreateInfo, NodeOutputInfo, NodeParamInfo, Request, DEFAULT_ENDPOINT,
    PROTOCOL_VERSION,
};

#[test]
fn reply_wraps_the_data() {
    assert_eq!(make_reply("1"), br#"{"status":0,"data":1}"#.to_vec());
    assert_eq!(make_reply("{\"a\":[]}"), br#"{"status":0,"data":{"a":[]}}"#.to_vec());
    assert_eq!(make_reply("\"é\""), "{\"status\":0,\"data\":\"é\"}".as_bytes().to_vec());
}

#[test]
fn error_reply_quotes_the_message() {
    assert_eq!(
        make_error_reply("unimplemented"),
        br#"{"status":1,"errorMessage":"unimplemented"}"#.to_vec()
    );
    assert_eq!(
        make_error_reply("say \"hi\"\n"),
        br#"{"status":1,"errorMessage":"say \"hi\"\n"}"#.to_vec()
    );
    assert_eq!(make_error_reply(""), br#"{"status":1,"errorMessage":""}"#.to_vec());
    assert_eq!(make_quoted_error_reply("null"), br#"{"status":1,"errorMessage":null}"#.to_vec());
}

#[test]
fn version_request_is_answered() {
    assert_eq!(PROTOCOL_VERSION, 1);
    assert_eq!(get_version(), 1);
    assert_eq!(dispatch(&Request::GetVersion {}), br#"{"status":0,"data":1}"#.to_vec());
}

#[test]
fn other_requests_are_unimplemented() {
    let expected = br#"{"status":1,"errorMessage":"unimplemented"}"#.to_vec();
    assert_eq!(dispatch(&Request::GetNodeInfo {}), expected);
    assert_eq!(dispatch(&Request::Kill {}), expected);
}

#[test]
fn descriptions_compare_by_value() {
    let p = NodeParamInfo { ty: "number".to_string(), show_connector: true };
    let o = NodeOutputInfo { ty: "image".to_string() };
    let info = NodeCreateInfo {
        name: "n".to_string(),
        params: vec![("x".to_string(), p.clone())],
        outputs: vec![("out".to_string(), o.clone())],
    };
    assert_eq!(info.clone(), info);
    assert_ne!(p, NodeParamInfo { ty: "number".to_string(), show_connector: false });
    let c = Connection { source_path: "/a/out".to_string(), destination_path: "/b/x".to_string() };
    assert_eq!(c.clone(), c);
    assert_ne!(NextAction::Continue, NextAction::Break);
    assert_eq!(DEFAULT_ENDPOINT, "tcp://127.0.0.1:5555");
}

#[test]
fn every_error_has_its_message() {
    assert_eq!(Error::IdNotFound.message(), "node ID not found");
    assert_eq!(Error::NameNotFound.message(), "name not found");
    assert_eq!(Error::Other.message(), "unspecified error");
    assert_eq!(Error::TypeError.message(), "type error");
    assert_eq!(Error::CycleDetected.message(), "dependency cycle detected");
    assert_eq!(Error::LuaError("bad".to_string()).message(), "lua error: bad");
    assert!(matches!(Error::LuaError("bad".to_string()).clone(), Error::LuaError(m) if m == "bad"));
}

#[test]
fn expression_keeps_its_source() {
    let e = Expr::new("v('time') * 2");
    assert_eq!(e.code(), "v('time') * 2");
    assert_eq!(e.clone().code(), "v('time') * 2");
    assert_eq!(Expr::empty().code(), "");
}

#[test]
fn numbers_are_written_in_decimal() {
    assert_eq!(nodenet::server::decimal(0), "0");
    assert_eq!(nodenet::server::decimal(7), "7");
    assert_eq!(nodenet::server::decimal(10), "10");
    assert_eq!(nodenet::server::decimal(4096), "4096");
    assert_eq!(nodenet::server::decimal(u32::MAX), "4294967295");
}

#[test]
fn wide_numbers_are_written_in_decimal() {
    assert_eq!(nodenet::server::decimal_wide(0), "0");
    assert_eq!(nodenet::server::decimal_wide(4294967298), "4294967298");
    assert_eq!(nodenet::server::decimal_wide(u64::MAX), "18446744073709551615");
}
