//! What each open file descriptor of the process refers to, described for
//! display.
use vstd::prelude::*;
use vstd::string::StringExecFns;

verus! {

#[allow(clippy::upper_case_acronyms)]
#[derive(PartialEq, Eq, Structural, Clone, Copy, Debug)]
pub enum DescriptorKind {
    File,
    TCP,
    UDP,
    VNode,
    KQueue,
    Pipe,
    Other,
}

/// One open descriptor: its number, its kind and a line of detail.
#[derive(Debug)]
pub struct Descriptor {
    pub n: u32,
    pub kind: DescriptorKind,
    pub details: String,
}

/// What a descriptor refers to, as the process table lists it.
#[derive(Debug)]
pub enum FdTarget {
    /// A file or device, by its path.
    Path(String),
    /// A socket, by its inode.
    Socket(u64),
    Net(u64),
    Pipe(u64),
    /// A descriptor with no inode of its own.
    AnonInode(String),
    /// A memfd, by its name.
    MemFD(String),
    /// Another kind of target, by its name, with its inode.
    Other(String, u64),
}

/// One descriptor as the process table lists it.
#[derive(Debug)]
pub struct FdEntry {
    pub fd: i32,
    pub target: FdTarget,
}

/// The state of a TCP socket.
#[derive(PartialEq, Eq, Structural, Clone, Copy, Debug)]
pub enum TcpState {
    Established,
    SynSent,
    SynRecv,
    FinWait1,
    FinWait2,
    TimeWait,
    Close,
    CloseWait,
    LastAck,
    Listen,
    Closing,
    NewSynRecv,
}

/// The state of a UDP socket.
#[derive(PartialEq, Eq, Structural, Clone, Copy, Debug)]
pub enum UdpState {
    Established,
    Close,
}

/// One socket of the process's network tables, with its addresses as text.
#[derive(Debug)]
pub enum SocketEntry {
    Udp { local_address: String, state: UdpState },
    Tcp { state: TcpState, local_address: String, remote_address: String },
}

/// A socket and the inode by which descriptors refer to it.
#[derive(Debug)]
pub struct SocketInfo {
    pub inode: u64,
    pub entry: SocketEntry,
}

pub open spec fn tcp_state_text(s: TcpState) -> Seq<char> {
    match s {
        TcpState::Established => "Established"@,
        TcpState::SynSent => "SynSent"@,
        TcpState::SynRecv => "SynRecv"@,
        TcpState::FinWait1 => "FinWait1"@,
        TcpState::FinWait2 => "FinWait2"@,
        TcpState::TimeWait => "TimeWait"@,
        TcpState::Close => "Close"@,
        TcpState::CloseWait => "CloseWait"@,
        TcpState::LastAck => "LastAck"@,
        TcpState::Listen => "Listen"@,
        TcpState::Closing => "Closing"@,
        TcpState::NewSynRecv => "NewSynRecv"@,
    }
}

pub open spec fn udp_state_text(s: UdpState) -> Seq<char> {
    match s {
        UdpState::Established => "Established"@,
        UdpState::Close => "Close"@,
    }
}

/// The decimal digits of `v`, most significant first.
pub open spec fn decimal_chars(v: nat) -> Seq<char>
    decreases v,
{
    let digit = seq!['0', '1', '2', '3', '4', '5', '6', '7', '8', '9'][(v % 10) as int];
    if v < 10 {
        seq![digit]
    } else {
        decimal_chars(v / 10).push(digit)
    }
}

/// Relies on std's `ToString` for `u64`, which writes the number in decimal.
#[verifier::external_body]
fn decimal_text(v: u64) -> (r: String)
    ensures
        r@ == decimal_chars(v as nat),
{
    v.to_string()
}

pub fn tcp_state_name(s: TcpState) -> (r: String)
    ensures
        r@ == tcp_state_text(s),
{
    match s {
        TcpState::Established => String::from_str("Established"),
        TcpState::SynSent => String::from_str("SynSent"),
        TcpState::SynRecv => String::from_str("SynRecv"),
        TcpState::FinWait1 => String::from_str("FinWait1"),
        TcpState::FinWait2 => String::from_str("FinWait2"),
        TcpState::TimeWait => String::from_str("TimeWait"),
        TcpState::Close => String::from_str("Close"),
        TcpState::CloseWait => String::from_str("CloseWait"),
        TcpState::LastAck => String::from_str("LastAck"),
        TcpState::Listen => String::from_str("Listen"),
        TcpState::Closing => String::from_str("Closing"),
        TcpState::NewSynRecv => String::from_str("NewSynRecv"),
    }
}

pub fn udp_state_name(s: UdpState) -> (r: String)
    ensures
        r@ == udp_state_text(s),
{
    match s {
        UdpState::Established => String::from_str("Established"),
        UdpState::Close => String::from_str("Close"),
    }
}

/// How a socket is shown: a UDP socket by its local address and state, a
/// TCP socket by its state and, when listening, its local address, else its
/// remote one.
pub open spec fn socket_description(e: SocketEntry) -> (DescriptorKind, Seq<char>) {
    match e {
        SocketEntry::Udp { local_address, state } => (
            DescriptorKind::UDP,
            local_address@ + " "@ + udp_state_text(state),
        ),
        SocketEntry::Tcp { state, local_address, remote_address } => (
            DescriptorKind::TCP,
            tcp_state_text(state) + " "@ + if state == TcpState::Listen {
                local_address@
            } else {
                remote_address@
            },
        ),
    }
}

pub fn format_socket(e: &SocketEntry) -> (r: (DescriptorKind, String))
    ensures
        r.0 == socket_description(*e).0,
        r.1@ == socket_description(*e).1,
{
    match e {
        SocketEntry::Udp { local_address, state } => {
            let mut s = local_address.clone();
            s.append(" ");
            let name = udp_state_name(*state);
            s.append(name.as_str());
            (DescriptorKind::UDP, s)
        },
        SocketEntry::Tcp { state, local_address, remote_address } => {
            let mut s = tcp_state_name(*state);
            s.append(" ");
            if *state == TcpState::Listen {
                s.append(local_address.as_str());
            } else {
                s.append(remote_address.as_str());
            }
            (DescriptorKind::TCP, s)
        },
    }
}

/// The index of the first socket with `inode`, if any.
pub fn find_socket(sockets: &Vec<SocketInfo>, inode: u64) -> (r: Option<usize>)
    ensures
        match r {
            Some(i) => i < sockets@.len() && sockets@[i as int].inode == inode && forall|j: int|
                0 <= j < i ==> (#[trigger] sockets@[j]).inode != inode,
            None => forall|j: int| 0 <= j < sockets@.len() ==> (#[trigger] sockets@[j]).inode != inode,
        },
{
    let mut i: usize = 0;
    while i < sockets.len()
        invariant
            i <= sockets@.len(),
            forall|j: int| 0 <= j < i ==> (#[trigger] sockets@[j]).inode != inode,
        decreases sockets@.len() - i,
    {
        if sockets[i].inode == inode {
            return Some(i);
        }
        i = i + 1;
    }
    None
}

/// How a descriptor's target is shown, given the sockets of the process.
pub open spec fn target_description(t: FdTarget, sockets: Seq<SocketInfo>) -> (
    DescriptorKind,
    Seq<char>,
) {
    match t {
        FdTarget::Path(p) => (DescriptorKind::File, p@),
        FdTarget::Socket(inode) => if exists|i: int|
            0 <= i < sockets.len() && (#[trigger] sockets[i]).inode == inode {
            let i = choose|i: int|
                0 <= i < sockets.len() && (#[trigger] sockets[i]).inode == inode && forall|j: int|
                    0 <= j < i ==> (#[trigger] sockets[j]).inode != inode;
            socket_description(sockets[i].entry)
        } else {
            (DescriptorKind::Other, "Unknown socket"@)
        },
        FdTarget::Net(v) => (DescriptorKind::Other, decimal_chars(v as nat)),
        FdTarget::Pipe(v) => (DescriptorKind::Pipe, decimal_chars(v as nat)),
        FdTarget::AnonInode(s) => (DescriptorKind::Other, s@),
        FdTarget::MemFD(s) => (DescriptorKind::Other, s@),
        FdTarget::Other(s, _) => (DescriptorKind::Other, s@),
    }
}

proof fn lemma_first_match_unique(sockets: Seq<SocketInfo>, inode: u64, i: int, k: int)
    requires
        0 <= i < sockets.len(),
        sockets[i].inode == inode,
        forall|j: int| 0 <= j < i ==> (#[trigger] sockets[j]).inode != inode,
        0 <= k < sockets.len(),
        sockets[k].inode == inode,
        forall|j: int| 0 <= j < k ==> (#[trigger] sockets[j]).inode != inode,
    ensures
        i == k,
{
    if i < k {
        assert(sockets[i].inode != inode);
    } else if k < i {
        assert(sockets[k].inode != inode);
    }
}

/// The kind and detail line of a descriptor's target.
pub fn descriptor_map(fd: Option<FdEntry>, sockets: &Vec<SocketInfo>) -> (r: (
    DescriptorKind,
    String,
))
    ensures
        match fd {
            Some(e) => r.0 == target_description(e.target, sockets@).0 && r.1@
                == target_description(e.target, sockets@).1,
            None => r.0 == DescriptorKind::Other && r.1@ == "failed to get info"@,
        },
{
    match fd {
        Some(entry) => match entry.target {
            FdTarget::Path(p) => (DescriptorKind::File, p),
            FdTarget::Socket(inode) => match find_socket(sockets, inode) {
                Some(i) => {
                    proof {
                        let k = choose|k: int|
                            0 <= k < sockets@.len() && (#[trigger] sockets@[k]).inode == inode
                                && forall|j: int|
                                0 <= j < k ==> (#[trigger] sockets@[j]).inode != inode;
                        lemma_first_match_unique(sockets@, inode, i as int, k);
                    }
                    format_socket(&sockets[i].entry)
                },
                None => (DescriptorKind::Other, String::from_str("Unknown socket")),
            },
            FdTarget::Net(v) => (DescriptorKind::Other, decimal_text(v)),
            FdTarget::Pipe(v) => (DescriptorKind::Pipe, decimal_text(v)),
            FdTarget::AnonInode(s) => (DescriptorKind::Other, s),
            FdTarget::MemFD(s) => (DescriptorKind::Other, s),
            FdTarget::Other(s, _) => (DescriptorKind::Other, s),
        },
        None => (DescriptorKind::Other, String::from_str("failed to get info")),
    }
}

/// The description of one descriptor; one the process table could not read
/// is shown as number 0.
pub fn descriptor(fd: Option<FdEntry>, sockets: &Vec<SocketInfo>) -> (r: Descriptor)
    ensures
        r.n == (match fd {
            Some(e) => e.fd as u32,
            None => 0u32,
        }),
        match fd {
            Some(e) => r.kind == target_description(e.target, sockets@).0 && r.details@
                == target_description(e.target, sockets@).1,
            None => r.kind == DescriptorKind::Other && r.details@ == "failed to get info"@,
        },
{
    let n: u32 = match &fd {
        Some(e) => e.fd as u32,
        None => 0,
    };
    let (kind, details) = descriptor_map(fd, sockets);
    Descriptor { n, kind, details }
}

} // verus!
