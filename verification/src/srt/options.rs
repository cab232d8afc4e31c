//! Socket options of an SRT connection.

use vstd::prelude::*;

verus! {

/// Options of an SRT socket.
pub struct Options {
    pub stream_id: Option<String>,
    pub max_bandwidth: i64,
    pub latency: u32,
    pub timeout: u32,
    pub fec: String,
    pub mtu: u32,
    pub fc: u32,
}

/// The transmission type of a socket.
pub enum TransType {
    Live,
    File,
}

/// One option to set on an SRT socket, with its value.
pub enum SocketOption {
    TransType(TransType),
    TsbpdMode(i32),
    TlPktDrop(i32),
    Fc(u32),
    Mss(u32),
    RcvLatency(u32),
    MaxBw(i64),
    PeerIdleTimeout(u32),
    PacketFilter(String),
    StreamId(String),
}

/// A socket option as plain values.
pub enum SocketOptionView {
    TransTypeLive,
    TransTypeFile,
    TsbpdMode(i32),
    TlPktDrop(i32),
    Fc(u32),
    Mss(u32),
    RcvLatency(u32),
    MaxBw(i64),
    PeerIdleTimeout(u32),
    PacketFilter(Seq<char>),
    StreamId(Seq<char>),
}

impl View for SocketOption {
    type V = SocketOptionView;

    open spec fn view(&self) -> SocketOptionView {
        match self {
            SocketOption::TransType(TransType::Live) => SocketOptionView::TransTypeLive,
            SocketOption::TransType(TransType::File) => SocketOptionView::TransTypeFile,
            SocketOption::TsbpdMode(v) => SocketOptionView::TsbpdMode(*v),
            SocketOption::TlPktDrop(v) => SocketOptionView::TlPktDrop(*v),
            SocketOption::Fc(v) => SocketOptionView::Fc(*v),
            SocketOption::Mss(v) => SocketOptionView::Mss(*v),
            SocketOption::RcvLatency(v) => SocketOptionView::RcvLatency(*v),
            SocketOption::MaxBw(v) => SocketOptionView::MaxBw(*v),
            SocketOption::PeerIdleTimeout(v) => SocketOptionView::PeerIdleTimeout(*v),
            SocketOption::PacketFilter(s) => SocketOptionView::PacketFilter(s@),
            SocketOption::StreamId(s) => SocketOptionView::StreamId(s@),
        }
    }
}

/// The options a socket gets, in the order they are set: live transmission,
/// timestamp-based delivery and too-late drop on, then flow control window,
/// segment size, receive latency, bandwidth cap, idle timeout, the packet
/// filter, and the stream id when there is one.
pub open spec fn socket_options_of(o: Options) -> Seq<SocketOptionView> {
    let common = seq![
        SocketOptionView::TransTypeLive,
        SocketOptionView::TsbpdMode(1),
        SocketOptionView::TlPktDrop(1),
        SocketOptionView::Fc(o.fc),
        SocketOptionView::Mss(o.mtu),
        SocketOptionView::RcvLatency(o.latency),
        SocketOptionView::MaxBw(o.max_bandwidth),
        SocketOptionView::PeerIdleTimeout(o.timeout),
        SocketOptionView::PacketFilter(o.fec@),
    ];
    match o.stream_id {
        Some(id) => common.push(SocketOptionView::StreamId(id@)),
        None => common,
    }
}

/// The options of `opts` as plain values.
pub open spec fn option_views(opts: Seq<SocketOption>) -> Seq<SocketOptionView> {
    opts.map_values(|o: SocketOption| o@)
}

impl Options {
    /// The options to set on a socket, in order.
    pub fn socket_options(&self) -> (r: Vec<SocketOption>)
        ensures
            r@.map_values(|o: SocketOption| o@) == socket_options_of(*self),
    {
        let mut r: Vec<SocketOption> = Vec::new();
        r.push(SocketOption::TransType(TransType::Live));
        r.push(SocketOption::TsbpdMode(1));
        r.push(SocketOption::TlPktDrop(1));
        r.push(SocketOption::Fc(self.fc));
        r.push(SocketOption::Mss(self.mtu));
        r.push(SocketOption::RcvLatency(self.latency));
        r.push(SocketOption::MaxBw(self.max_bandwidth));
        r.push(SocketOption::PeerIdleTimeout(self.timeout));
        r.push(SocketOption::PacketFilter(self.fec.clone()));
        match &self.stream_id {
            Some(id) => {
                r.push(SocketOption::StreamId(id.clone()));
            },
            None => {},
        }
        assert(r@.map_values(|o: SocketOption| o@) =~= socket_options_of(*self));
        r
    }

    /// Sets the options of `socket_options` on a socket, in order, through
    /// `set`, which sets one option and says whether it took. Setting stops
    /// at the first option that does not take: `Err` with its position in the
    /// list. `Ok` when every option took.
    pub fn apply_socket<F: Fn(&SocketOption) -> bool>(&self, set: F) -> (r: Result<(), usize>)
        requires
            forall|o: &SocketOption| call_requires(set, (o,)),
        ensures
            exists|opts: Seq<SocketOption>|
                {
                    &&& #[trigger] option_views(opts) == socket_options_of(*self)
                    &&& match r {
                        Ok(()) => forall|i: int|
                            0 <= i < opts.len() ==> call_ensures(set, (&opts[i],), true),
                        Err(k) => {
                            &&& k < opts.len()
                            &&& call_ensures(set, (&opts[k as int],), false)
                            &&& forall|i: int|
                                0 <= i < k ==> call_ensures(set, (&opts[i],), true)
                        },
                    }
                },
    {
        let opts = self.socket_options();
        assert(option_views(opts@) == socket_options_of(*self));
        let mut i: usize = 0;
        while i < opts.len()
            invariant
                i <= opts@.len(),
                option_views(opts@) == socket_options_of(*self),
                forall|o: &SocketOption| call_requires(set, (o,)),
                forall|j: int| 0 <= j < i ==> call_ensures(set, (&opts@[j],), true),
            decreases opts@.len() - i,
        {
            let took = set(&opts[i]);
            if !took {
                assert(call_ensures(set, (&opts@[i as int],), false));
                return Err(i);
            }
            i = i + 1;
        }
        Ok(())
    }

    /// The largest payload of a packet: the segment size less the headers
    /// (1500 - 1316 bytes).
    pub fn max_pkt_size(&self) -> (r: usize)
        requires
            self.mtu >= 184,
        ensures
            r == self.mtu - 184,
    {
        (self.mtu as usize) - (1500 - 1316)
    }
}

impl Default for Options {
    fn default() -> (r: Options)
        ensures
            r.fec@ == "fec,layout:even,rows:20,cols:10,arq:always"@,
            r.max_bandwidth == -1,
            r.stream_id is None,
            r.timeout == 5000,
            r.latency == 120,
            r.mtu == 1400,
            r.fc == 25600,
    {
        Options {
            fec: String::from_str("fec,layout:even,rows:20,cols:10,arq:always"),
            max_bandwidth: -1,
            stream_id: None,
            timeout: 5000,
            latency: 120,
            mtu: 1400,
            fc: 25600,
        }
    }
}

} // verus!
