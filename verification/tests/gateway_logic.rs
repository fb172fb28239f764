use can_tcp_gateway::frame::{build_transmit_frame, EXTENDED_ID_MAX};
use can_tcp_gateway::gateway::{
    client_step, client_transmission, BroadcastMsg, ClientAction, ClientEvent, ClientIds, ClientState, Gateway,
    CAN_BUS_SOURCE,
};
use can_tcp_gateway::raw::parse_raw_line;
use socketcan::{EmbeddedFrame, ExtendedId, Id};

// -- Gateway construction ------------------------------------------------

#[test]
fn test_gateway_defaults() {
    let gw = Gateway::from_settings(None, None, None);
    assert_eq!(gw.can_interface, "can0");
    assert_eq!(gw.host, "0.0.0.0");
    assert_eq!(gw.port, 2598);
}

#[test]
fn test_gateway_from_env() {
    let gw = Gateway::from_settings(
        Some("vcan0".to_string()),
        Some("127.0.0.1".to_string()),
        Some("3000".to_string()),
    );
    assert_eq!(gw.can_interface, "vcan0");
    assert_eq!(gw.host, "127.0.0.1");
    assert_eq!(gw.port, 3000);
}

#[test]
fn gateway_port_that_does_not_parse_falls_back() {
    assert_eq!(Gateway::from_settings(None, None, Some("abc".to_string())).port, 2598);
    assert_eq!(Gateway::from_settings(None, None, Some("70000".to_string())).port, 2598);
    assert_eq!(Gateway::from_settings(None, None, Some(" 80".to_string())).port, 2598);
    assert_eq!(Gateway::from_settings(None, None, Some("".to_string())).port, 2598);
    assert_eq!(Gateway::from_settings(None, None, Some("+80".to_string())).port, 80);
    assert_eq!(Gateway::from_settings(None, None, Some("65535".to_string())).port, 65535);
    assert_eq!(Gateway::from_settings(None, None, Some("0".to_string())).port, 0);
}

// -- client identifiers and broadcast delivery ---------------------------

#[test]
fn client_ids_count_up_from_one() {
    let mut ids = ClientIds::new();
    assert_eq!(ids.peek_next(), 1);
    assert_eq!(ids.allocate(), 1);
    assert_eq!(ids.allocate(), 2);
    assert_eq!(ids.allocate(), 3);
    assert_eq!(ids.peek_next(), 4);
}

#[test]
fn can_lines_reach_every_client() {
    let mut ids = ClientIds::new();
    let msg = BroadcastMsg::from_can(b"x\r\n".to_vec());
    assert_eq!(msg.source, CAN_BUS_SOURCE);
    for _ in 0..5 {
        let id = ids.allocate();
        assert!(msg.delivers_to(id));
    }
}

#[test]
fn client_lines_skip_their_sender() {
    let msg = BroadcastMsg::from_client(7, b"y".to_vec());
    assert_eq!(*msg.data, b"y".to_vec());
    assert!(!msg.delivers_to(7));
    assert!(msg.delivers_to(8));
    assert!(msg.delivers_to(CAN_BUS_SOURCE + 1));
}

// -- client lines ----------------------------------------------------------

#[test]
fn client_line_becomes_transmission_with_t_echo() {
    let t = client_transmission("19F51323 01 02 03 04").unwrap();
    assert_eq!(t.can_id, 0x19F51323);
    assert_eq!(t.data, vec![1, 2, 3, 4]);
    let echo = t.echo.unwrap();
    assert_eq!(echo.len(), 12 + 25);
    assert_eq!(&echo[12..], b" T 19F51323 01 02 03 04\r\n");
    let echo = String::from_utf8(echo).unwrap();
    assert_eq!(parse_raw_line(&echo), Some((0x19F51323, vec![1, 2, 3, 4])));
}

#[test]
fn blank_or_invalid_client_lines_are_ignored() {
    assert!(client_transmission("").is_none());
    assert!(client_transmission(" \r\n").is_none());
    assert!(client_transmission("hello").is_none());
}

// -- transmit frames -------------------------------------------------------

#[test]
fn transmit_frame_keeps_a_29_bit_id() {
    let t = build_transmit_frame(0x19F51323, &[0xAA, 0xBB]);
    assert_eq!(t.can_id, 0x19F51323);
    assert!(!t.masked);
    let frame = t.frame.unwrap();
    assert_eq!(frame.id(), Id::Extended(ExtendedId::new(0x19F51323).unwrap()));
    assert_eq!(frame.data(), &[0xAA, 0xBB]);
}

#[test]
fn transmit_frame_masks_a_wide_id() {
    let t = build_transmit_frame(0xFFFF_FFFF, &[1]);
    assert_eq!(t.can_id, EXTENDED_ID_MAX);
    assert!(t.masked);
    let frame = t.frame.unwrap();
    assert_eq!(frame.id(), Id::Extended(ExtendedId::new(0x1FFF_FFFF).unwrap()));
    let t = build_transmit_frame(0x2000_0005, &[]);
    assert_eq!(t.can_id, 5);
    assert!(t.masked);
    assert_eq!(t.frame.unwrap().id(), Id::Extended(ExtendedId::new(5).unwrap()));
}

#[test]
fn transmit_frame_refuses_long_payload() {
    assert!(build_transmit_frame(1, &[0; 8]).frame.is_some());
    assert!(build_transmit_frame(1, &[0; 9]).frame.is_none());
}

#[test]
fn long_payload_gets_no_echo() {
    let t = client_transmission("19F51323 01 02 03 04 05 06 07 08 09").unwrap();
    assert_eq!(t.data.len(), 9);
    assert!(t.echo.is_none());
    let t = client_transmission("19F51323 01 02 03 04 05 06 07 08").unwrap();
    assert!(t.echo.is_some());
}

#[test]
fn wide_id_is_echoed_as_requested() {
    let t = client_transmission("FFFFFFFF 01").unwrap();
    assert_eq!(t.can_id, 0xFFFFFFFF);
    let echo = t.echo.unwrap();
    assert_eq!(&echo[12..], b" T FFFFFFFF 01\r\n");
}

#[test]
fn client_step_sends_then_echoes_then_broadcasts() {
    let (s, a) = client_step(ClientState::Ready, 4, ClientEvent::Line("R 0CF00400 11 22".to_string()));
    match a {
        ClientAction::SendToCan { can_id, data } => {
            assert_eq!(can_id, 0x0CF00400);
            assert_eq!(data, vec![0x11, 0x22]);
        }
        _ => panic!("expected SendToCan"),
    }
    let (s, a) = client_step(s, 4, ClientEvent::Sent(true));
    let echo = match a {
        ClientAction::SendEcho(e) => e,
        _ => panic!("expected SendEcho"),
    };
    assert_eq!(&echo[12..], b" T 0CF00400 11 22\r\n");
    let (s, a) = client_step(s, 4, ClientEvent::Sent(true));
    match a {
        ClientAction::Broadcast(m) => {
            assert_eq!(m.source, 4);
            assert_eq!(*m.data, echo);
        }
        _ => panic!("expected Broadcast"),
    }
    assert!(matches!(s, ClientState::Ready));
}

#[test]
fn client_step_stops_on_closed_channels() {
    let (s, _) = client_step(ClientState::Ready, 1, ClientEvent::Line("1 2".to_string()));
    let (s, a) = client_step(s, 1, ClientEvent::Sent(false));
    assert!(matches!(s, ClientState::Closed));
    assert!(matches!(a, ClientAction::Disconnect));
    let (s, _) = client_step(ClientState::Ready, 1, ClientEvent::Line("1 2".to_string()));
    let (s, _) = client_step(s, 1, ClientEvent::Sent(true));
    let (s, a) = client_step(s, 1, ClientEvent::Sent(false));
    assert!(matches!(s, ClientState::Closed));
    assert!(matches!(a, ClientAction::Disconnect));
}

#[test]
fn client_step_ignores_unreadable_lines_and_long_payload_echo() {
    let (s, a) = client_step(ClientState::Ready, 1, ClientEvent::Line("hello".to_string()));
    assert!(matches!(s, ClientState::Ready));
    assert!(matches!(a, ClientAction::Wait));
    let (s, a) = client_step(ClientState::Ready, 1, ClientEvent::Line("1 1 2 3 4 5 6 7 8 9".to_string()));
    assert!(matches!(a, ClientAction::SendToCan { .. }));
    let (s, a) = client_step(s, 1, ClientEvent::Sent(true));
    assert!(matches!(s, ClientState::Ready));
    assert!(matches!(a, ClientAction::Wait));
}

#[test]
fn session_of_several_lines_keeps_order() {
    let lines = [
        "19F51323 01 02",
        "not a frame",
        "R 0CF00400 11 22 33 44 55 66 77 88 99",
        "",
        "12:00:00.000 T 09F805FD FF",
    ];
    let client = 3;
    let mut state = ClientState::Ready;
    let mut to_can: Vec<(u32, Vec<u8>)> = Vec::new();
    let mut echoes: Vec<Vec<u8>> = Vec::new();
    let mut casts: Vec<Vec<u8>> = Vec::new();
    for line in lines.iter() {
        let mut event = ClientEvent::Line(line.to_string());
        loop {
            let (next, action) = client_step(state, client, event);
            state = next;
            match action {
                ClientAction::Wait => break,
                ClientAction::Disconnect => panic!("unexpected disconnect"),
                ClientAction::SendToCan { can_id, data } => {
                    to_can.push((can_id, data));
                    event = ClientEvent::Sent(true);
                }
                ClientAction::SendEcho(e) => {
                    echoes.push(e);
                    event = ClientEvent::Sent(true);
                }
                ClientAction::Broadcast(m) => {
                    assert_eq!(m.source, client);
                    assert!(!m.delivers_to(client));
                    casts.push((*m.data).clone());
                    break;
                }
            }
        }
    }
    assert_eq!(
        to_can,
        vec![
            (0x19F51323, vec![1, 2]),
            (0x0CF00400, vec![0x11, 0x22, 0x33, 0x44, 0x55, 0x66, 0x77, 0x88, 0x99]),
            (0x09F805FD, vec![0xFF]),
        ]
    );
    assert_eq!(echoes.len(), 2);
    assert_eq!(&echoes[0][12..], b" T 19F51323 01 02\r\n");
    assert_eq!(&echoes[1][12..], b" T 09F805FD FF\r\n");
    assert_eq!(casts, echoes);
}
