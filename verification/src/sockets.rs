//! Socket units: what a `.socket` file asks to listen on, and the names under which the
//! file descriptors are handed to the services.
use vstd::prelude::*;

use crate::net::SocketAddress;
use crate::text::{join_with, push_char, split_on, string_of, to_chars};

verus! {

/// The kind of a `Listen...=` line of a socket unit, with its address as written.
#[derive(Clone, Debug)]
pub enum SocketKind {
    Stream(String),
    Sequential(String),
    Datagram(String),
    Fifo(String),
}

/// A unix domain socket: its kind and its path.
#[derive(Clone, Debug)]
pub enum UnixSocketConfig {
    Stream(String),
    Sequential(String),
    Datagram(String),
}

/// A named pipe at a path.
#[derive(Clone, Debug)]
pub struct FifoConfig {
    pub path: String,
}

/// A listening TCP socket.
#[derive(Clone, Debug)]
pub struct TcpSocketConfig {
    pub addr: SocketAddress,
}

/// A bound UDP socket.
#[derive(Clone, Debug)]
pub struct UdpSocketConfig {
    pub addr: SocketAddress,
}

/// How one `Listen...=` line is to be opened.
#[derive(Clone, Debug)]
pub enum SpecializedSocketConfig {
    UnixSocket(UnixSocketConfig),
    Fifo(FifoConfig),
    TcpSocket(TcpSocketConfig),
    UdpSocket(UdpSocketConfig),
}

/// One socket of a socket unit; `fd` is the raw file descriptor once it is open.
#[derive(Clone, Debug)]
pub struct SocketConfig {
    pub kind: SocketKind,
    pub specialized: SpecializedSocketConfig,
    pub fd: Option<i32>,
}

/// The socket part of a socket unit.
#[derive(Clone, Debug)]
pub struct Socket {
    /// The `FileDescriptorName=` of the unit (`"unknown"` where it has none).
    pub name: String,
    pub sockets: Vec<SocketConfig>,
    /// The `Service=` entries of the unit.
    pub services: Vec<String>,
    /// Whether activity on the sockets has already started the service.
    pub activated: bool,
}

/// `name`, `n` times, separated by `':'`.
pub open spec fn repeated_name_list(name: Seq<char>, n: nat) -> Seq<char> {
    join_with(Seq::new(n, |i: int| name), seq![':'])
}

impl Socket {
    /// The value of `LISTEN_FDNAMES` for this socket unit: its file descriptor name once
    /// per socket, separated by `':'`.
    pub fn build_name_list(&self) -> (res: String)
        requires
            self.sockets.len() > 0,
        ensures
            res@ == repeated_name_list(self.name@, self.sockets.len() as nat),
    {
        let n = self.sockets.len();
        let name = to_chars(self.name.as_str());
        let mut name_list = string_of(&name);
        let mut i: usize = 1;
        proof {
            assert(Seq::new(1, |j: int| self.name@).drop_last() =~= Seq::<Seq<char>>::empty());
        }
        while i < n
            invariant
                1 <= i <= n,
                name@ == self.name@,
                name_list@ == repeated_name_list(self.name@, i as nat),
            decreases n - i,
        {
            push_char(&mut name_list, ':');
            let mut k: usize = 0;
            let ghost before = name_list@;
            while k < name.len()
                invariant
                    k <= name.len(),
                    name_list@ == before + name@.subrange(0, k as int),
                decreases name.len() - k,
            {
                push_char(&mut name_list, name[k]);
                proof {
                    assert(name@.subrange(0, k + 1) == name@.subrange(0, k as int).push(name@[k as int]));
                }
                k = k + 1;
            }
            proof {
                assert(name@.subrange(0, name@.len() as int) =~= name@);
                let p = Seq::new((i + 1) as nat, |j: int| self.name@);
                assert(p.drop_last() =~= Seq::new(i as nat, |j: int| self.name@));
                assert(name_list@ =~= repeated_name_list(self.name@, i as nat) + seq![':'] + self.name@);
            }
            i = i + 1;
        }
        name_list
    }
}

/// `LISTEN_FDNAMES` names each descriptor once: split at `:`, the name list of a socket
/// unit with `n` sockets gives its name `n` times, where the name holds no `:`.
pub proof fn law_name_list_one_name_per_socket(name: Seq<char>, n: nat)
    requires
        n >= 1,
        forall|i: int| 0 <= i < name.len() ==> name[i] != ':',
    ensures
        split_on(repeated_name_list(name, n), ':') == Seq::new(n, |i: int| name),
{
    let pieces = Seq::new(n, |i: int| name);
    assert forall|k: int, i: int| 0 <= k < pieces.len() && 0 <= i < pieces[k].len() implies #[trigger] pieces[k][i] != ':' by {
        assert(pieces[k] == name);
    }
    crate::text::law_split_undoes_join(pieces, ':');
}

} // verus!
