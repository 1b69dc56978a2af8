use std::sync::Arc;

use rojo::ports::{get_port_number, PortCounter, FIRST_PORT};
use rojo::session::ServeSession;
use rojo::online::{online_step, OnlineStep};
use rojo::session::RootInfo;
use rojo::ui::{project_label, uptime_secs, uptime_text, UiRoute, UiService};

#[test]
fn ports_count_up_from_first() {
    let mut ports = PortCounter::new();
    assert_eq!(get_port_number(&mut ports), 35103);
    assert_eq!(get_port_number(&mut ports), 35104);
    assert_eq!(ports.next, FIRST_PORT + 2);
}

#[test]
fn ports_wrap_at_the_top() {
    let mut ports = PortCounter { next: usize::MAX };
    assert_eq!(get_port_number(&mut ports), usize::MAX);
    assert_eq!(ports.next, 0);
}

#[test]
fn ui_routes() {
    assert_eq!(UiService::route(true, "/"), UiRoute::Home);
    assert_eq!(UiService::route(true, "/logo.png"), UiRoute::Logo);
    assert_eq!(UiService::route(true, "/icon.png"), UiRoute::Icon);
    assert_eq!(UiService::route(true, "/show-instances"), UiRoute::ShowInstances);
    assert_eq!(UiService::route(true, "/show-imfs"), UiRoute::ShowImfs);
    assert_eq!(UiService::route(true, "/other"), UiRoute::NotFound);
    assert_eq!(UiService::route(false, "/"), UiRoute::NotFound);
}

#[test]
fn ui_service_shares_session() {
    let session = Arc::new(ServeSession::new(1, "root".to_string(), None));
    let ui = UiService::new(session.clone());
    assert!(Arc::ptr_eq(&ui.serve_session, &session));
    assert_eq!(ui.serve_session.root_info().session_id, 1);
}

#[test]
fn project_label_falls_back() {
    assert_eq!(project_label(&Some("game".to_string())), "game");
    assert_eq!(project_label(&None), "<unnamed>");
}

#[test]
fn uptime_is_whole_seconds() {
    assert_eq!(uptime_secs(9420, 999_999_999), 9420);
    assert_eq!(uptime_text(9420, 5_000_000), "2h 37m");
    assert_eq!(uptime_text(0, 999), "0s");
    assert_eq!(uptime_text(61, 0), "1m 1s");
}

#[test]
fn online_steps() {
    let info = || RootInfo {
        session_id: 4,
        server_version: "v".to_string(),
        root_instance_id: 0,
        project_name: None,
    };
    assert!(matches!(online_step(true, Some(info())), OnlineStep::Fail));
    assert!(matches!(online_step(true, None), OnlineStep::Fail));
    assert!(matches!(online_step(false, None), OnlineStep::RetryAfterMs(30)));
    match online_step(false, Some(info())) {
        OnlineStep::Done(i) => assert_eq!(i.session_id, 4),
        _ => panic!("an answer means the server is up"),
    }
}
