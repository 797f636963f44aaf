use vstd::prelude::*;

verus! {

/// Severity of a log line streamed from the control API.
#[derive(Clone, Copy, Debug, PartialEq, Eq, Structural)]
pub enum Level {
    Error,
    Warning,
    Info,
    Debug,
}

/// One log line: its severity and its text.
#[derive(Clone, Debug)]
pub struct Log {
    pub log_type: Level,
    pub payload: String,
}

/// The role of a proxy as the control API reports it.
#[derive(Clone, Copy, Debug, PartialEq, Eq, Structural, Hash)]
pub enum ProxyType {
    Direct,
    Reject,
    Selector,
    URLTest,
    Fallback,
    LoadBalance,
    Relay,
    Shadowsocks,
    ShadowsocksR,
    Snell,
    Socks5,
    Http,
    Vmess,
    Trojan,
    Unknown,
}

impl ProxyType {
    /// A terminal proxy is a leaf connection target: latency is meaningful for it.
    pub open spec fn is_normal_spec(self) -> bool {
        !(self is Selector || self is URLTest || self is Fallback || self is LoadBalance
            || self is Relay)
    }

    pub fn is_normal(&self) -> (r: bool)
        ensures
            r == self.is_normal_spec(),
    {
        match self {
            ProxyType::Selector | ProxyType::URLTest | ProxyType::Fallback
            | ProxyType::LoadBalance | ProxyType::Relay => false,
            _ => true,
        }
    }
}

/// One latency sample, in milliseconds; zero means that none could be observed.
#[derive(Clone, Copy, Debug, PartialEq, Eq, Structural, Hash)]
pub struct History {
    pub delay: u64,
}

} // verus!

verus! {

/// A proxy record of a snapshot. Groups also list their members (`all`) and may name the
/// active one (`now`).
#[derive(Clone, Debug)]
pub struct Proxy {
    pub proxy_type: ProxyType,
    pub history: Vec<History>,
    pub udp: bool,
    pub all: Option<Vec<String>>,
    pub now: Option<String>,
}

/// One fetch of the backend's proxies: each record under its name, in the order given.
#[derive(Clone, Debug)]
pub struct Proxies {
    pub entries: Vec<(String, Proxy)>,
}

} // verus!
