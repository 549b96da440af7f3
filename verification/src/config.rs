//! The configuration of a replica: its identifier, its peers, the address it binds.
use crate::text::{decimal_digits, lemma_decimal_digits_value, parse_u64_range, parse_u64_spec, u64_to_decimal};
use vstd::prelude::*;
use vstd::string::StringExecFns;

verus! {

/// Which replication algorithm a replica runs.
#[derive(Debug, Clone, Copy, PartialEq, Eq)]
pub enum AlgorithmConfig {
    Paxos,
}

impl Default for AlgorithmConfig {
    fn default() -> (r: Self)
        ensures
            r == AlgorithmConfig::Paxos,
    {
        AlgorithmConfig::Paxos
    }
}

#[derive(Debug, Clone)]
pub struct SmrConfig {
    /// The unique node id.
    pub node_id: u32,
    /// The number of nodes in the cluster, this one included.
    total_nodes: u32,
    /// The other nodes: identifier and socket address.
    pub other_nodes: Vec<(u32, String)>,
    /// The address this node listens on.
    pub bind_address: String,
}

impl SmrConfig {
    /// The number of nodes in the cluster, this one included.
    pub closed spec fn total_nodes_spec(&self) -> u32 {
        self.total_nodes
    }

    /// The node's identifier.
    pub closed spec fn node_id_spec(&self) -> u32 {
        self.node_id
    }

    /// The other nodes.
    pub closed spec fn other_nodes_spec(&self) -> Seq<(u32, String)> {
        self.other_nodes@
    }

    /// The address this node listens on.
    pub closed spec fn bind_address_spec(&self) -> Seq<char> {
        self.bind_address@
    }

    pub fn node_id(&self) -> (r: u32)
        ensures
            r == self.node_id_spec(),
    {
        self.node_id
    }

    /// The number of nodes in the cluster, this one included.
    pub fn total_nodes(&self) -> (r: u32)
        ensures
            r == self.total_nodes_spec(),
    {
        self.total_nodes
    }

    /// A configuration for node `node_id` among `other_nodes`; the bind address is
    /// `127.0.0.1` when none is given.
    pub fn new(node_id: u32, bind_address: Option<String>, other_nodes: Vec<(u32, String)>) -> (r: crate::Result<
        SmrConfig,
    >)
        requires
            other_nodes@.len() < u32::MAX,
        ensures
            r is Ok,
            r.unwrap().node_id_spec() == node_id,
            r.unwrap().total_nodes_spec() == other_nodes@.len() + 1,
            r.unwrap().other_nodes_spec() == other_nodes@,
            r.unwrap().bind_address_spec() == (match bind_address {
                Some(a) => a@,
                None => "127.0.0.1"@,
            }),
    {
        let bind_address = match bind_address {
            Some(a) => a,
            None => String::from_str("127.0.0.1"),
        };
        let total_nodes = other_nodes.len() as u32 + 1;
        Ok(SmrConfig { node_id, bind_address, total_nodes, other_nodes })
    }
}

/// Why the command line `<binary> <node_id> <port1,port2,...,portN>` was refused.
#[derive(Debug, Clone, PartialEq, Eq)]
pub enum CliArgsError {
    /// Not exactly two arguments after the program's name.
    Usage,
    /// The node identifier is not a 16-bit unsigned number.
    InvalidNodeId,
    /// One of the ports is not a 16-bit unsigned number.
    InvalidPort,
    /// Fewer than three ports; the number given.
    TooFewPorts(usize),
    /// The node identifier is not the index of a port.
    NodeIdOutOfRange { node_id: u16, num_nodes: usize },
}

/// The UTF-8 bytes of a string.
pub open spec fn text_bytes(s: String) -> Seq<u8> {
    vstd::utf8::encode_utf8(s@)
}

/// What `<u16 as FromStr>::from_str` returns on the text `s`.
pub open spec fn parse_u16_spec(s: Seq<u8>) -> Option<u16> {
    match parse_u64_spec(s) {
        Some(v) => if v <= u16::MAX {
            Some(v as u16)
        } else {
            None
        },
        None => None,
    }
}

/// The pieces of `s` between commas, as `str::split(',')` gives them.
pub open spec fn split_at_commas(s: Seq<u8>) -> Seq<Seq<u8>>
    decreases s.len(),
{
    if s.len() == 0 {
        seq![Seq::<u8>::empty()]
    } else {
        let init = split_at_commas(s.drop_last());
        if s.last() == 44u8 {
            init.push(Seq::<u8>::empty())
        } else {
            init.update(init.len() - 1, init.last().push(s.last()))
        }
    }
}

/// The ports written in `fields`, if every one of them is a 16-bit number.
pub open spec fn parse_ports_spec(fields: Seq<Seq<u8>>) -> Option<Seq<u16>> {
    if forall|i: int| 0 <= i < fields.len() ==> (#[trigger] parse_u16_spec(fields[i])) is Some {
        Some(Seq::new(fields.len(), |i: int| parse_u16_spec(fields[i]).unwrap()))
    } else {
        None
    }
}

/// The address `127.0.0.1:<port>`.
pub open spec fn local_address(port: u16) -> Seq<char> {
    "127.0.0.1:"@ + decimal_digits(port as nat).map_values(|b: u8| b as char)
}

/// The node identifier and the ports that a command line gives, or why it is
/// refused.
pub open spec fn cli_outcome(args: Seq<Seq<u8>>) -> Result<(u16, Seq<u16>), CliArgsError> {
    if args.len() != 3 {
        Err(CliArgsError::Usage)
    } else {
        match parse_u16_spec(args[1]) {
            None => Err(CliArgsError::InvalidNodeId),
            Some(node_id) => match parse_ports_spec(split_at_commas(args[2])) {
                None => Err(CliArgsError::InvalidPort),
                Some(ports) => if ports.len() < 3 {
                    Err(CliArgsError::TooFewPorts(ports.len() as usize))
                } else if node_id >= ports.len() {
                    Err(CliArgsError::NodeIdOutOfRange { node_id, num_nodes: ports.len() as usize })
                } else {
                    Ok((node_id, ports))
                },
            },
        }
    }
}

/// The identifier of the `i`-th other node, when the node itself is `node_id`.
pub open spec fn other_index(i: int, node_id: int) -> int {
    if i < node_id {
        i
    } else {
        i + 1
    }
}

/// `peers` lists every node of `0..n` other than `node_id`, once each, in
/// increasing order of identifier.
pub open spec fn peers_are_other_nodes(peers: Seq<(u32, String)>, node_id: int, n: int) -> bool {
    &&& peers.len() == n - 1
    &&& forall|i: int, j: int| 0 <= i < j < peers.len() ==> peers[i].0 < peers[j].0
    &&& forall|i: int| 0 <= i < peers.len() ==> (#[trigger] peers[i]).0 < n && peers[i].0 != node_id
    &&& forall|k: int| 0 <= k < n && k != node_id ==> #[trigger] lists_node(peers, k)
}

/// Node `k` is among `peers`.
pub open spec fn lists_node(peers: Seq<(u32, String)>, k: int) -> bool {
    exists|i: int| 0 <= i < peers.len() && (#[trigger] peers[i]).0 == k
}

/// The peers of node `node_id` among `n` nodes are every other node, once each, in
/// increasing order: the identifiers increase, none is `node_id`, all are below
/// `n`, and every node other than `node_id` is among them.
pub proof fn lemma_peers_are_the_other_nodes(node_id: int, n: int)
    requires
        0 <= node_id < n,
    ensures
        forall|i: int, j: int| 0 <= i < j < n - 1 ==> other_index(i, node_id) < other_index(j, node_id),
        forall|i: int| 0 <= i < n - 1 ==> 0 <= #[trigger] other_index(i, node_id) < n && other_index(i, node_id) != node_id,
        forall|k: int|
            0 <= k < n && k != node_id ==> 0 <= #[trigger] peer_position(k, node_id) < n - 1 && other_index(
                peer_position(k, node_id),
                node_id,
            ) == k,
{
}

/// Where node `k` stands among the peers of node `node_id`.
pub open spec fn peer_position(k: int, node_id: int) -> int {
    if k < node_id {
        k
    } else {
        k - 1
    }
}

/// The digit `b` as a one-character text.
fn digit_text(b: u8) -> (r: &'static str)
    requires
        48 <= b <= 57,
    ensures
        r@ == seq![b as char],
{
    proof {
        reveal_strlit("0");
        reveal_strlit("1");
        reveal_strlit("2");
        reveal_strlit("3");
        reveal_strlit("4");
        reveal_strlit("5");
        reveal_strlit("6");
        reveal_strlit("7");
        reveal_strlit("8");
        reveal_strlit("9");
    }
    match b {
        48u8 => "0",
        49u8 => "1",
        50u8 => "2",
        51u8 => "3",
        52u8 => "4",
        53u8 => "5",
        54u8 => "6",
        55u8 => "7",
        56u8 => "8",
        _ => "9",
    }
}

/// The address `127.0.0.1:<port>`.
pub fn local_address_of(port: u16) -> (r: String)
    ensures
        r@ == local_address(port),
{
    let digits = u64_to_decimal(port as u64);
    proof {
        reveal_strlit("127.0.0.1:");
        lemma_decimal_digits_value(port as nat);
    }
    let mut s = String::from_str("127.0.0.1:");
    let ghost chars = digits@.map_values(|b: u8| b as char);
    let mut i: usize = 0;
    while i < digits.len()
        invariant
            i <= digits@.len(),
            digits@ == decimal_digits(port as nat),
            crate::text::all_digits(digits@),
            chars == digits@.map_values(|b: u8| b as char),
            s@ == "127.0.0.1:"@ + chars.subrange(0, i as int),
        decreases digits.len() - i,
    {
        let b = digits[i];
        assert(crate::text::is_digit(digits@[i as int]));
        s.append(digit_text(b));
        assert(chars.subrange(0, i as int + 1) =~= chars.subrange(0, i as int).push(b as char));
        i = i + 1;
    }
    assert(chars.subrange(0, digits@.len() as int) =~= chars);
    s
}

/// Splits `s` at its commas.
fn split_commas(s: &[u8]) -> (r: Vec<(usize, usize)>)
    ensures
        r@.len() == split_at_commas(s@).len(),
        forall|i: int| 0 <= i < r@.len() ==> {
            &&& (#[trigger] r@[i]).0 <= r@[i].1 <= s@.len()
            &&& s@.subrange(r@[i].0 as int, r@[i].1 as int) == split_at_commas(s@)[i]
        },
{
    let mut r: Vec<(usize, usize)> = Vec::new();
    let mut start: usize = 0;
    let mut j: usize = 0;
    while j < s.len()
        invariant
            start <= j <= s@.len(),
            r@.len() + 1 == split_at_commas(s@.subrange(0, j as int)).len(),
            forall|i: int| 0 <= i < r@.len() ==> {
                &&& (#[trigger] r@[i]).0 <= r@[i].1 <= j
                &&& s@.subrange(r@[i].0 as int, r@[i].1 as int) == split_at_commas(
                    s@.subrange(0, j as int),
                )[i]
            },
            s@.subrange(start as int, j as int) == split_at_commas(s@.subrange(0, j as int)).last(),
        decreases s.len() - j,
    {
        let ghost pre = s@.subrange(0, j as int);
        let ghost next = s@.subrange(0, j as int + 1);
        assert(next.drop_last() =~= pre);
        assert(next.last() == s@[j as int]);
        if s[j] == 44u8 {
            r.push((start, j));
            start = j + 1;
            assert(s@.subrange(start as int, j as int + 1) =~= Seq::<u8>::empty());
        } else {
            assert(s@.subrange(start as int, j as int + 1) =~= s@.subrange(start as int, j as int).push(
                s@[j as int],
            ));
        }
        j = j + 1;
    }
    assert(s@.subrange(0, s@.len() as int) =~= s@);
    r.push((start, s.len()));
    r
}

/// Reads a 16-bit unsigned number from `s[start..end]`.
fn parse_u16_range(s: &[u8], start: usize, end: usize) -> (r: Option<u16>)
    requires
        start <= end <= s@.len(),
    ensures
        r == parse_u16_spec(s@.subrange(start as int, end as int)),
{
    match parse_u64_range(s, start, end) {
        Some(v) => if v <= 65535 {
            Some(v as u16)
        } else {
            None
        },
        None => None,
    }
}

/// Reads the comma-separated 16-bit ports of `text`.
fn parse_ports(text: &[u8]) -> (r: Option<Vec<u16>>)
    ensures
        match parse_ports_spec(split_at_commas(text@)) {
            Some(ps) => r is Some && r->Some_0@ == ps,
            None => r is None,
        },
{
    let fields = split_commas(text);
    let ghost pieces = split_at_commas(text@);
    let mut ports: Vec<u16> = Vec::new();
    let mut k: usize = 0;
    while k < fields.len()
        invariant
            k <= fields@.len(),
            fields@.len() == pieces.len(),
            pieces == split_at_commas(text@),
            forall|i: int| 0 <= i < fields@.len() ==> {
                &&& (#[trigger] fields@[i]).0 <= fields@[i].1 <= text@.len()
                &&& text@.subrange(fields@[i].0 as int, fields@[i].1 as int) == pieces[i]
            },
            ports@.len() == k,
            forall|i: int| 0 <= i < k ==> parse_u16_spec(#[trigger] pieces[i]) == Some(ports@[i]),
        decreases fields.len() - k,
    {
        let (a, b) = fields[k];
        match parse_u16_range(text, a, b) {
            Some(p) => ports.push(p),
            None => {
                assert(parse_u16_spec(pieces[k as int]) is None);
                return None;
            },
        }
        k = k + 1;
    }
    assert(Seq::new(pieces.len(), |i: int| parse_u16_spec(pieces[i]).unwrap()) =~= ports@);
    Some(ports)
}

/// The configuration of node `node_id` among the nodes listening at `ports`.
fn config_for_ports(node_id: u16, ports: &Vec<u16>) -> (c: SmrConfig)
    requires
        node_id < ports@.len() < u32::MAX,
    ensures
        c.node_id_spec() == node_id,
        c.total_nodes_spec() == ports@.len(),
        c.bind_address_spec() == local_address(ports@[node_id as int]),
        c.other_nodes_spec().len() == ports@.len() - 1,
        forall|i: int| 0 <= i < ports@.len() - 1 ==> {
            &&& (#[trigger] c.other_nodes_spec()[i]).0 == other_index(i, node_id as int)
            &&& c.other_nodes_spec()[i].1@ == local_address(ports@[other_index(i, node_id as int)])
        },
        peers_are_other_nodes(c.other_nodes_spec(), node_id as int, ports@.len() as int),
{
    let num_nodes = ports.len();
    let bind = local_address_of(ports[node_id as usize]);
    let mut other_nodes: Vec<(u32, String)> = Vec::new();
    let mut n: usize = 0;
    while n < num_nodes
        invariant
            n <= num_nodes,
            num_nodes == ports@.len(),
            node_id < num_nodes,
            num_nodes < u32::MAX,
            other_nodes@.len() == if n <= node_id {
                n as int
            } else {
                n - 1
            },
            forall|i: int| 0 <= i < other_nodes@.len() ==> {
                &&& (#[trigger] other_nodes@[i]).0 == other_index(i, node_id as int)
                &&& other_nodes@[i].1@ == local_address(ports@[other_index(i, node_id as int)])
            },
        decreases num_nodes - n,
    {
        if n != node_id as usize {
            let addr = local_address_of(ports[n]);
            other_nodes.push((n as u32, addr));
        }
        n = n + 1;
    }
    proof {
        lemma_peers_are_the_other_nodes(node_id as int, num_nodes as int);
        let o = other_nodes@;
        assert forall|k: int| 0 <= k < num_nodes && k != node_id implies #[trigger] lists_node(o, k) by {
            let i = peer_position(k, node_id as int);
            assert(o[i].0 == k);
        }
    }
    SmrConfig { node_id: node_id as u32, total_nodes: num_nodes as u32, other_nodes, bind_address: bind }
}

impl SmrConfig {
    /// Reads the configuration from the command line
    /// `<binary> <node_id> <port1,port2,...,portN>`: node `node_id` of `N >= 3`
    /// nodes, node `n` listening on `127.0.0.1` at the `n`-th port.
    #[verifier::spinoff_prover]
    #[verifier::rlimit(40)]
    pub fn parse_cli_args(args: &Vec<String>) -> (r: Result<SmrConfig, CliArgsError>)
        requires
            args@.len() == 3 ==> text_bytes(args@[2]).len() + 1 < u32::MAX,
        ensures
            ({
                let outcome = cli_outcome(args@.map_values(|a: String| text_bytes(a)));
                &&& r is Err <==> outcome is Err
                &&& r is Err ==> r->Err_0 == outcome->Err_0
                &&& r is Ok ==> {
                    let (node_id, ports) = outcome->Ok_0;
                    let c = r->Ok_0;
                    &&& c.node_id_spec() == node_id
                    &&& c.total_nodes_spec() == ports.len()
                    &&& c.bind_address_spec() == local_address(ports[node_id as int])
                    &&& c.other_nodes_spec().len() == ports.len() - 1
                    &&& forall|i: int| 0 <= i < ports.len() - 1 ==> {
                        &&& (#[trigger] c.other_nodes_spec()[i]).0 == other_index(i, node_id as int)
                        &&& c.other_nodes_spec()[i].1@ == local_address(ports[other_index(i, node_id as int)])
                    }
                    &&& peers_are_other_nodes(c.other_nodes_spec(), node_id as int, ports.len() as int)
                }
            }),
    {
        let ghost argv = args@.map_values(|a: String| text_bytes(a));
        let ghost outcome = cli_outcome(argv);
        if args.len() != 3 {
            return Err(CliArgsError::Usage);
        }
        assert(argv.len() == 3);
        let id_text = args[1].as_str().as_bytes();
        assert(id_text@ == argv[1]);
        let ghost id_parsed = parse_u16_spec(argv[1]);
        assert(id_text@.subrange(0, id_text@.len() as int) =~= id_text@);
        let node_id = match parse_u16_range(id_text, 0, id_text.len()) {
            Some(v) => v,
            None => {
                return Err(CliArgsError::InvalidNodeId);
            },
        };
        assert(id_parsed == Some(node_id));
        let ports_text = args[2].as_str().as_bytes();
        assert(ports_text@ == argv[2]);
        let ports = match parse_ports(ports_text) {
            Some(p) => p,
            None => {
                assert(outcome == Err::<(u16, Seq<u16>), CliArgsError>(CliArgsError::InvalidPort));
                return Err(CliArgsError::InvalidPort);
            },
        };
        let num_nodes = ports.len();
        if num_nodes < 3 {
            return Err(CliArgsError::TooFewPorts(num_nodes));
        }
        if node_id as usize >= num_nodes {
            return Err(CliArgsError::NodeIdOutOfRange { node_id, num_nodes });
        }
        proof {
            lemma_split_len_bound(ports_text@);
        }
        Ok(config_for_ports(node_id, &ports))
    }
}

/// Splitting at commas gives at most one piece more than there are bytes.
proof fn lemma_split_len_bound(s: Seq<u8>)
    ensures
        1 <= split_at_commas(s).len() <= s.len() + 1,
    decreases s.len(),
{
    if s.len() > 0 {
        lemma_split_len_bound(s.drop_last());
    }
}

} // verus!
