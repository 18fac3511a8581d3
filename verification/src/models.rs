//! The data model: where a stream came from, its address family, streams,
//! parsed playlist entries and merged channels, each with a mathematical view.
use vstd::prelude::*;

verus! {

/// Where a stream was found.
#[derive(Debug, Clone, Copy, PartialEq, Eq, Hash, Structural)]
pub enum Origin {
    Template,
    Local,
    Subscribe,
    SubscribeWhitelist,
}

impl Origin {
    /// The rank of an origin when nothing else orders two streams.
    pub open spec fn spec_priority(self) -> nat {
        match self {
            Origin::Template => 0,
            Origin::SubscribeWhitelist => 1,
            Origin::Local => 2,
            Origin::Subscribe => 3,
        }
    }

    pub fn priority(self) -> (p: usize)
        ensures
            p == self.spec_priority(),
    {
        match self {
            Origin::Template => 0,
            Origin::SubscribeWhitelist => 1,
            Origin::Local => 2,
            Origin::Subscribe => 3,
        }
    }
}

/// The address family of a stream's host.
#[derive(Debug, Clone, Copy, PartialEq, Eq, Hash, Structural)]
pub enum IpvType {
    Ipv4,
    Ipv6,
    Unknown,
}

/// The name of an address family.
pub open spec fn ipv_name(t: IpvType) -> Seq<char> {
    match t {
        IpvType::Ipv4 => "ipv4"@,
        IpvType::Ipv6 => "ipv6"@,
        IpvType::Unknown => "unknown"@,
    }
}

impl IpvType {
    pub fn as_str(self) -> (s: &'static str)
        ensures
            s@ == ipv_name(self),
    {
        match self {
            IpvType::Ipv4 => "ipv4",
            IpvType::Ipv6 => "ipv6",
            IpvType::Unknown => "unknown",
        }
    }
}

/// One playable address of a channel.
#[derive(Debug, Clone, PartialEq, Eq)]
pub struct Stream {
    pub url: String,
    pub origin: Origin,
    pub whitelist: bool,
    pub source_order: usize,
    pub iptv_source: Option<String>,
    pub iptv_restricted: bool,
    pub ipv_type: IpvType,
}

/// The mathematical value of a [`Stream`].
pub struct SpecStream {
    pub url: Seq<char>,
    pub origin: Origin,
    pub whitelist: bool,
    pub source_order: usize,
    pub iptv_source: Option<Seq<char>>,
    pub iptv_restricted: bool,
    pub ipv_type: IpvType,
}

impl View for Stream {
    type V = SpecStream;

    open spec fn view(&self) -> SpecStream {
        SpecStream {
            url: self.url@,
            origin: self.origin,
            whitelist: self.whitelist,
            source_order: self.source_order,
            iptv_source: opt_view(self.iptv_source),
            iptv_restricted: self.iptv_restricted,
            ipv_type: self.ipv_type,
        }
    }
}

/// The view of an optional string.
pub open spec fn opt_view(o: Option<String>) -> Option<Seq<char>> {
    match o {
        Some(s) => Some(s@),
        None => None,
    }
}

/// The views of a sequence of streams.
pub open spec fn stream_views(s: Seq<Stream>) -> Seq<SpecStream> {
    s.map_values(|x: Stream| x@)
}

/// An entry read from a playlist: a channel name with at most one stream.
#[derive(Debug, Clone, PartialEq, Eq)]
pub struct ParsedChannel {
    pub name: String,
    pub group: Option<String>,
    pub tvg_id: Option<String>,
    pub logo: Option<String>,
    pub stream: Option<Stream>,
    pub order: usize,
}

/// The mathematical value of a [`ParsedChannel`].
pub struct SpecParsedChannel {
    pub name: Seq<char>,
    pub group: Option<Seq<char>>,
    pub tvg_id: Option<Seq<char>>,
    pub logo: Option<Seq<char>>,
    pub stream: Option<SpecStream>,
    pub order: usize,
}

impl View for ParsedChannel {
    type V = SpecParsedChannel;

    open spec fn view(&self) -> SpecParsedChannel {
        SpecParsedChannel {
            name: self.name@,
            group: opt_view(self.group),
            tvg_id: opt_view(self.tvg_id),
            logo: opt_view(self.logo),
            stream: match self.stream {
                Some(s) => Some(s@),
                None => None,
            },
            order: self.order,
        }
    }
}

/// The views of a sequence of parsed entries.
pub open spec fn parsed_views(s: Seq<ParsedChannel>) -> Seq<SpecParsedChannel> {
    s.map_values(|x: ParsedChannel| x@)
}

/// A channel with all the streams found for it.
#[derive(Debug, Clone, PartialEq, Eq)]
pub struct Channel {
    pub name: String,
    pub group: Option<String>,
    pub tvg_id: Option<String>,
    pub logo: Option<String>,
    pub streams: Vec<Stream>,
    pub order: usize,
}

/// The mathematical value of a [`Channel`].
pub struct SpecChannel {
    pub name: Seq<char>,
    pub group: Option<Seq<char>>,
    pub tvg_id: Option<Seq<char>>,
    pub logo: Option<Seq<char>>,
    pub streams: Seq<SpecStream>,
    pub order: usize,
}

impl View for Channel {
    type V = SpecChannel;

    open spec fn view(&self) -> SpecChannel {
        SpecChannel {
            name: self.name@,
            group: opt_view(self.group),
            tvg_id: opt_view(self.tvg_id),
            logo: opt_view(self.logo),
            streams: stream_views(self.streams@),
            order: self.order,
        }
    }
}

/// The views of a sequence of channels.
pub open spec fn channel_views(s: Seq<Channel>) -> Seq<SpecChannel> {
    s.map_values(|x: Channel| x@)
}

/// The channel that a single parsed entry starts.
pub open spec fn spec_channel_new(item: SpecParsedChannel) -> SpecChannel {
    SpecChannel {
        name: item.name,
        group: item.group,
        tvg_id: item.tvg_id,
        logo: item.logo,
        streams: match item.stream {
            Some(s) => seq![s],
            None => seq![],
        },
        order: item.order,
    }
}

/// The first of two optional values that is present.
pub open spec fn first_some<T>(a: Option<T>, b: Option<T>) -> Option<T> {
    if a is Some {
        a
    } else {
        b
    }
}

/// Whether some stream of `s` has address `url`.
pub open spec fn has_url(s: Seq<SpecStream>, url: Seq<char>) -> bool {
    exists|i: int| 0 <= i < s.len() && #[trigger] s[i].url == url
}

/// A channel after a further entry of the same channel has been merged in:
/// missing metadata is taken from the entry, the order is the smaller one,
/// and the entry's stream is appended unless a stream with its address is
/// already there.
pub open spec fn spec_merge(c: SpecChannel, item: SpecParsedChannel) -> SpecChannel {
    SpecChannel {
        name: c.name,
        group: first_some(c.group, item.group),
        tvg_id: first_some(c.tvg_id, item.tvg_id),
        logo: first_some(c.logo, item.logo),
        streams: match item.stream {
            Some(s) => if has_url(c.streams, s.url) {
                c.streams
            } else {
                c.streams.push(s)
            },
            None => c.streams,
        },
        order: if item.order < c.order {
            item.order
        } else {
            c.order
        },
    }
}

/// No two streams share an address.
pub open spec fn urls_unique(s: Seq<SpecStream>) -> bool {
    forall|i: int, j: int| 0 <= i < j < s.len() ==> #[trigger] s[i].url != #[trigger] s[j].url
}

/// The keys under which a channel's programme guide is looked up.
pub open spec fn spec_epg_keys(c: SpecChannel) -> Seq<Seq<char>> {
    match c.tvg_id {
        Some(id) => seq![id, c.name],
        None => seq![c.name],
    }
}

/// A copy of an optional string.
pub fn copy_opt_string(o: &Option<String>) -> (r: Option<String>)
    ensures
        opt_view(r) == opt_view(*o),
{
    match o {
        Some(s) => Some(s.clone()),
        None => None,
    }
}

impl Channel {
    pub fn new(item: ParsedChannel) -> (c: Self)
        ensures
            c@ == spec_channel_new(item@),
    {
        let mut streams: Vec<Stream> = Vec::new();
        match item.stream {
            Some(s) => {
                streams.push(s);
            },
            None => {},
        }
        let c = Channel {
            name: item.name,
            group: item.group,
            tvg_id: item.tvg_id,
            logo: item.logo,
            streams,
            order: item.order,
        };
        assert(c@.streams =~= spec_channel_new(item@).streams);
        c
    }

    pub fn merge(&mut self, item: ParsedChannel)
        ensures
            final(self)@ == spec_merge(old(self)@, item@),
    {
        if self.group.is_none() {
            self.group = item.group;
        }
        if self.tvg_id.is_none() {
            self.tvg_id = item.tvg_id;
        }
        if self.logo.is_none() {
            self.logo = item.logo;
        }
        if item.order < self.order {
            self.order = item.order;
        }
        match item.stream {
            Some(stream) => {
                let mut found = false;
                let mut i: usize = 0;
                while i < self.streams.len()
                    invariant
                        i <= self.streams@.len(),
                        found == exists|j: int|
                            0 <= j < i && #[trigger] self.streams@[j].url@ == stream.url@,
                    decreases self.streams@.len() - i,
                {
                    if self.streams[i].url == stream.url {
                        found = true;
                    }
                    i = i + 1;
                }
                let ghost before = self.streams@;
                proof {
                    if found {
                        let j = choose|j: int|
                            0 <= j < i && #[trigger] self.streams@[j].url@ == stream.url@;
                        assert(stream_views(before)[j].url == stream.url@);
                    } else {
                        assert forall|j: int| 0 <= j < before.len() implies #[trigger] stream_views(
                            before,
                        )[j].url != stream.url@ by {
                            assert(stream_views(before)[j] == before[j]@);
                        }
                    }
                }
                if !found {
                    self.streams.push(stream);
                    assert(stream_views(self.streams@) =~= stream_views(before).push(stream@));
                }
            },
            None => {},
        }
    }

    pub fn epg_keys(&self) -> (keys: Vec<String>)
        ensures
            crate::text::string_views(keys@) == spec_epg_keys(self@),
    {
        let mut keys: Vec<String> = Vec::new();
        match &self.tvg_id {
            Some(id) => {
                keys.push(id.clone());
            },
            None => {},
        }
        keys.push(self.name.clone());
        assert(crate::text::string_views(keys@) =~= spec_epg_keys(self@));
        keys
    }
}

} // verus!
