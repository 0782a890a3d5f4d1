use engine::mega::folder::{
    download_target, listing_nodes, DownloadField, DownloadReply, ListingReply,
};
use engine::realdebrid::{key_is_set, unrestrict_error, RdError};
use engine::ws::{socket_step, SocketAction, SocketInput};
use engine::Error;

#[test]
fn listing_errors_carry_their_reason() {
    assert_eq!(
        listing_nodes(ListingReply::ErrorCode(-9)).unwrap_err(),
        Error::Other("MEGA API error -9 (e.g. -9 = not found, -16 = blocked/taken down)".into())
    );
    assert_eq!(
        listing_nodes(ListingReply::NotArray("{}".into())).unwrap_err(),
        Error::Other("unexpected MEGA response: {}".into())
    );
    assert_eq!(
        listing_nodes(ListingReply::MissingNodes).unwrap_err(),
        Error::Other("MEGA response missing node list".into())
    );
    assert_eq!(
        listing_nodes(ListingReply::BadNodes("oops".into())).unwrap_err(),
        Error::Other("failed to parse nodes: oops".into())
    );
    assert!(listing_nodes(ListingReply::Nodes(vec![])).unwrap().is_empty());
}

#[test]
fn download_reply_gives_url_and_size() {
    let r = DownloadReply::Target { size: Some(42), g: DownloadField::Url("https://x".into()) };
    assert_eq!(download_target(r).unwrap(), ("https://x".to_string(), 42));
    let r = DownloadReply::Target { size: None, g: DownloadField::Url("u".into()) };
    assert_eq!(download_target(r).unwrap(), ("u".to_string(), 0));
    let r = DownloadReply::Target { size: None, g: DownloadField::Number("-17".into()) };
    assert_eq!(
        download_target(r).unwrap_err(),
        Error::Other("MEGA download error -17 (e.g. -17 = bandwidth quota exceeded)".into())
    );
    let r = DownloadReply::Target { size: None, g: DownloadField::Missing };
    assert_eq!(
        download_target(r).unwrap_err(),
        Error::Other("MEGA response missing download url".into())
    );
    assert_eq!(
        download_target(DownloadReply::ErrorCode(-9223372036854775808)).unwrap_err(),
        Error::Other("MEGA API error -9223372036854775808".into())
    );
}

#[test]
fn real_debrid_errors_prefer_structured_message() {
    let e = unrestrict_error(
        503,
        "{\"error\":\"unavailable_file\",\"error_code\":24}".into(),
        Some(RdError { error: Some("unavailable_file".into()), error_code: Some(24) }),
    );
    assert_eq!(
        e,
        Error::RealDebrid { status: 503, code: Some(24), message: "unavailable_file".into() }
    );
    let e = unrestrict_error(500, "boom".into(), None);
    assert_eq!(e, Error::RealDebrid { status: 500, code: None, message: "boom".into() });
    let e = unrestrict_error(400, "raw".into(), Some(RdError { error: None, error_code: Some(1) }));
    assert_eq!(e, Error::RealDebrid { status: 400, code: Some(1), message: "raw".into() });
}

#[test]
fn socket_forwards_and_stops() {
    assert!(matches!(socket_step(SocketInput::Event(Some("x".into()))), SocketAction::Send(t) if t == "x"));
    assert!(matches!(socket_step(SocketInput::Event(None)), SocketAction::Continue));
    assert!(matches!(socket_step(SocketInput::Lagged), SocketAction::Continue));
    assert!(matches!(socket_step(SocketInput::ChannelClosed), SocketAction::Stop));
    assert!(matches!(socket_step(SocketInput::Ping(vec![1, 2])), SocketAction::Pong(p) if p == vec![1, 2]));
    assert!(matches!(socket_step(SocketInput::Close), SocketAction::Stop));
    assert!(matches!(socket_step(SocketInput::Other), SocketAction::Continue));
}

#[test]
fn api_key_is_set_when_not_empty() {
    assert!(!key_is_set(""));
    assert!(key_is_set("token"));
    assert!(key_is_set(" "));
}
