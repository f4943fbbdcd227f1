use servo_link::codec::{DecodeError, ServoCommand};
use servo_link::link::{neutral_command, neutral_frame, ConnectFailure, Link, LinkError};
use servo_link::ports::{list_serial_ports, PortEntry, PortKind};
use servo_link::relay::{EventRelay, RELAY_CAPACITY};

fn connected() -> Link {
    let mut link = Link::new();
    assert!(link.finish_connect(&"mock0".to_string(), Ok(())).is_ok());
    link
}

#[test]
fn send_neutral_command_bytes() {
    let link = connected();
    let c = ServoCommand {
        angles: vec![90, 90, 90, 90, 90, 90],
        digital_outputs: vec![false, false, false],
    };
    let written = link.prepare_command(&c).unwrap();
    assert_eq!(written, b"S90,90,90,90,90,90,0,0,0E\n".to_vec());
}

#[test]
fn read_status_from_preloaded_response() {
    let link = connected();
    let probe = link.prepare_status_request().unwrap();
    assert_eq!(probe, b"S90,90,90,90,90,90,0,0,0E\n".to_vec());
    let rec = link.finish_status(Ok(b"S10,20,30,40,50,60,1,0,1,1,0,1E\n".to_vec())).unwrap();
    assert_eq!(rec.servo_angles, vec![10, 20, 30, 40, 50, 60]);
    assert_eq!(rec.digital_outputs, vec![true, false, true]);
    assert_eq!(rec.digital_inputs, vec![true, false, true]);
}

#[test]
fn neutral_command_and_frame() {
    let c = neutral_command();
    assert_eq!(c.angles, vec![90; 6]);
    assert_eq!(c.digital_outputs, vec![false; 3]);
    assert_eq!(neutral_frame(), b"S90,90,90,90,90,90,0,0,0E\n".to_vec());
}

#[test]
fn operations_need_a_connection() {
    let link = Link::new();
    assert!(!link.is_connected());
    let c = neutral_command();
    assert_eq!(link.prepare_command(&c), Err(LinkError::NotConnected));
    assert_eq!(link.prepare_status_request(), Err(LinkError::NotConnected));
}

#[test]
fn connect_failures_keep_link_closed() {
    let mut link = Link::new();
    let r = link.finish_connect(&"ttyUSB9".to_string(), Err(ConnectFailure::Open("busy".to_string())));
    assert_eq!(
        r,
        Err(LinkError::Connect { descriptor: "ttyUSB9".to_string(), cause: "busy".to_string() })
    );
    assert!(!link.is_connected());
    let r = link.finish_connect(&"ttyUSB9".to_string(), Err(ConnectFailure::Handshake("io".to_string())));
    assert_eq!(r, Err(LinkError::Write("io".to_string())));
    assert!(!link.is_connected());
}

#[test]
fn write_failure_disconnects() {
    let mut link = connected();
    assert_eq!(link.finish_write(Ok(())), Ok(()));
    assert!(link.is_connected());
    assert_eq!(link.finish_write(Err("gone".to_string())), Err(LinkError::Write("gone".to_string())));
    assert!(!link.is_connected());
}

#[test]
fn status_errors() {
    let link = connected();
    assert!(matches!(link.finish_status(Err("timeout".to_string())), Err(LinkError::Read(c)) if c == "timeout"));
    assert!(matches!(
        link.finish_status(Ok(b"noise".to_vec())),
        Err(LinkError::Decode(DecodeError::NoValidFrame))
    ));
    assert!(matches!(
        link.finish_status(Ok(b"SA,BE\n".to_vec())),
        Err(LinkError::Decode(DecodeError::MalformedFrame))
    ));
    assert!(link.is_connected());
}

#[test]
fn disconnect_is_idempotent() {
    let mut link = connected();
    link.disconnect();
    assert!(!link.is_connected());
    link.disconnect();
    assert!(!link.is_connected());
}

#[test]
fn idle_poller_forwards_nothing() {
    let mut link = Link::new();
    let mut relay = EventRelay::with_default_capacity();
    for _ in 0..5 {
        if let Some(b) = link.finish_poll(Ok(b"S1E\n".to_vec())) {
            let _ = relay.try_push(b);
        }
        assert!(link.finish_poll(Err("x".to_string())).is_none());
    }
    assert_eq!(relay.len(), 0);
    assert!(!link.is_connected());
}

#[test]
fn poller_forwards_non_empty_reads() {
    let mut link = connected();
    assert_eq!(link.finish_poll(Ok(b"abc".to_vec())), Some(b"abc".to_vec()));
    assert_eq!(link.finish_poll(Ok(Vec::new())), None);
    assert!(link.is_connected());
    assert_eq!(link.finish_poll(Err("broken".to_string())), None);
    assert!(!link.is_connected());
}

#[test]
fn relay_is_bounded_and_ordered() {
    let mut relay = EventRelay::new(2);
    assert_eq!(relay.capacity(), 2);
    assert!(relay.try_push(vec![1]).is_ok());
    assert!(relay.try_push(vec![2]).is_ok());
    assert!(relay.is_full());
    assert_eq!(relay.try_push(vec![3]), Err(vec![3]));
    assert_eq!(relay.pop(), Some(vec![1]));
    assert_eq!(relay.pop(), Some(vec![2]));
    assert_eq!(relay.pop(), None);
    assert_eq!(RELAY_CAPACITY, 100);
    let default_relay = EventRelay::with_default_capacity();
    assert_eq!(default_relay.capacity(), 100);
}

#[test]
fn list_ports_keeps_usb_only() {
    let ports = vec![
        PortEntry { name: "/dev/ttyS0".to_string(), kind: PortKind::Pci },
        PortEntry { name: "/dev/ttyUSB0".to_string(), kind: PortKind::Usb },
        PortEntry { name: "/dev/rfcomm0".to_string(), kind: PortKind::Bluetooth },
        PortEntry { name: "/dev/ttyACM0".to_string(), kind: PortKind::Usb },
    ];
    let names = list_serial_ports(Ok(ports)).unwrap();
    assert_eq!(names, vec!["/dev/ttyUSB0".to_string(), "/dev/ttyACM0".to_string()]);
    assert_eq!(
        list_serial_ports(Err("denied".to_string())),
        Err(LinkError::Enumeration("denied".to_string()))
    );
    assert_eq!(list_serial_ports(Ok(Vec::new())), Ok(Vec::new()));
}
