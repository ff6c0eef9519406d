use groundwork::descriptors::{
    descriptor, descriptor_map, format_socket, DescriptorKind, FdEntry, FdTarget, SocketEntry,
    SocketInfo, TcpState, UdpState,
};

fn sockets() -> Vec<SocketInfo> {
    vec![
        SocketInfo {
            inode: 10,
            entry: SocketEntry::Udp { local_address: "0.0.0.0:53".to_string(), state: UdpState::Close },
        },
        SocketInfo {
            inode: 20,
            entry: SocketEntry::Tcp {
                state: TcpState::Listen,
                local_address: "127.0.0.1:8080".to_string(),
                remote_address: "0.0.0.0:0".to_string(),
            },
        },
        SocketInfo {
            inode: 30,
            entry: SocketEntry::Tcp {
                state: TcpState::Established,
                local_address: "127.0.0.1:8080".to_string(),
                remote_address: "10.0.0.2:5555".to_string(),
            },
        },
        SocketInfo {
            inode: 30,
            entry: SocketEntry::Udp { local_address: "shadowed".to_string(), state: UdpState::Established },
        },
    ]
}

#[test]
fn udp_socket_shows_local_address_and_state() {
    let (k, d) = format_socket(&sockets()[0].entry);
    assert_eq!(k, DescriptorKind::UDP);
    assert_eq!(d, "0.0.0.0:53 Close");
}

#[test]
fn listening_tcp_socket_shows_local_address() {
    let (k, d) = format_socket(&sockets()[1].entry);
    assert_eq!(k, DescriptorKind::TCP);
    assert_eq!(d, "Listen 127.0.0.1:8080");
}

#[test]
fn connected_tcp_socket_shows_remote_address() {
    let (k, d) = format_socket(&sockets()[2].entry);
    assert_eq!(k, DescriptorKind::TCP);
    assert_eq!(d, "Established 10.0.0.2:5555");
}

#[test]
fn socket_descriptor_uses_first_matching_inode() {
    let d = descriptor(Some(FdEntry { fd: 7, target: FdTarget::Socket(30) }), &sockets());
    assert_eq!(d.n, 7);
    assert_eq!(d.kind, DescriptorKind::TCP);
    assert_eq!(d.details, "Established 10.0.0.2:5555");
}

#[test]
fn unknown_socket() {
    let (k, d) = descriptor_map(Some(FdEntry { fd: 3, target: FdTarget::Socket(99) }), &sockets());
    assert_eq!(k, DescriptorKind::Other);
    assert_eq!(d, "Unknown socket");
}

#[test]
fn path_pipe_and_others() {
    let s = sockets();
    let path = descriptor(Some(FdEntry { fd: 1, target: FdTarget::Path("/dev/null".to_string()) }), &s);
    assert_eq!((path.n, path.kind, path.details.as_str()), (1, DescriptorKind::File, "/dev/null"));
    let pipe = descriptor(Some(FdEntry { fd: 2, target: FdTarget::Pipe(123456) }), &s);
    assert_eq!((pipe.kind, pipe.details.as_str()), (DescriptorKind::Pipe, "123456"));
    let net = descriptor(Some(FdEntry { fd: 4, target: FdTarget::Net(0) }), &s);
    assert_eq!((net.kind, net.details.as_str()), (DescriptorKind::Other, "0"));
    let anon = descriptor(Some(FdEntry { fd: 5, target: FdTarget::AnonInode("[eventfd]".to_string()) }), &s);
    assert_eq!((anon.kind, anon.details.as_str()), (DescriptorKind::Other, "[eventfd]"));
    let memfd = descriptor(Some(FdEntry { fd: 6, target: FdTarget::MemFD("buf".to_string()) }), &s);
    assert_eq!((memfd.kind, memfd.details.as_str()), (DescriptorKind::Other, "buf"));
    let other = descriptor(Some(FdEntry { fd: 8, target: FdTarget::Other("weird".to_string(), 9) }), &s);
    assert_eq!((other.kind, other.details.as_str()), (DescriptorKind::Other, "weird"));
}

#[test]
fn unreadable_descriptor() {
    let d = descriptor(None, &sockets());
    assert_eq!((d.n, d.kind, d.details.as_str()), (0, DescriptorKind::Other, "failed to get info"));
}
