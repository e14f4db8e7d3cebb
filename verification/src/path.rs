//! The ltree path encoding of an IPv6 prefix: the first twelve bits as three
//! hex digits, then every further network bit (up to bit 64) as ".0" or ".1".

use vstd::prelude::*;
use vstd::string::StringSliceAdditionalSpecFns;

use crate::prefix::{spec_network, Ipv6Prefix};

verus! {

/// Number of leading bits that form the root of every path (the minimum IANA
/// allocation).
pub const ROOT_LEN_BITS: u8 = 12;

/// Longest prefix that a path can express.
pub const MAX_PATH_PREFIX_LEN: u8 = 64;

/// Bit `i` of an address, counted from the most significant bit.
pub open spec fn addr_bit(x: u128, i: int) -> bool {
    ((x >> ((127 - i) as u128)) & 1u128) == 1u128
}

/// Lower-case hex digit for a nibble.
pub open spec fn hex_char(v: u128) -> char {
    if v < 10 {
        ((v + 48) as u8) as char
    } else {
        ((v + 87) as u8) as char
    }
}

/// The three hex digits of the first twelve bits of an address.
pub open spec fn root_chars(net: u128) -> Seq<char> {
    seq![
        hex_char((net >> 124u128) & 0xfu128),
        hex_char((net >> 120u128) & 0xfu128),
        hex_char((net >> 116u128) & 0xfu128),
    ]
}

/// ".b" for every bit index in `from..to`.
pub open spec fn bit_chars(net: u128, from: int, to: int) -> Seq<char> {
    Seq::new(
        (if to > from { 2 * (to - from) } else { 0 }) as nat,
        |i: int|
            if i % 2 == 0 {
                '.'
            } else if addr_bit(net, from + i / 2) {
                '1'
            } else {
                '0'
            },
    )
}

/// The path of a network: the root digits of its network address, then its
/// network bits from bit 12 up to its prefix length (at most 64).
pub open spec fn path_chars(p: Ipv6Prefix) -> Seq<char> {
    let net = spec_network(p.addr, p.len);
    let to = if p.len < 64 { p.len as int } else { 64 };
    root_chars(net) + bit_chars(net, 12, to)
}

/// Why a path could not be read back into a prefix.
#[derive(Debug, Clone, Copy, PartialEq, Eq)]
pub enum PathParseError {
    /// Fewer than three bytes.
    TooShort,
    /// The first three characters are not hex digits.
    InvalidRoot,
    /// An odd position from 3 on does not hold a dot.
    ExpectedDot { pos: usize },
    /// A bit position holds neither '0' nor '1'.
    ExpectedBit { pos: usize },
    /// More than 64 bits.
    TooLong,
    /// The prefix length was refused for the network.
    InvalidPrefixLen,
}

/// Value of a hex digit (either case).
pub open spec fn hex_value(c: u8) -> Option<u8> {
    if 48 <= c <= 57 {
        Some((c - 48) as u8)
    } else if 97 <= c <= 102 {
        Some((c - 87) as u8)
    } else if 65 <= c <= 70 {
        Some((c - 55) as u8)
    } else {
        None
    }
}

/// The twelve root bits read from the first three bytes. The third byte goes
/// to the front of a four-digit hex number "X0YZ" whose little-endian bytes
/// yield the bits, so a leading '+' there counts as a zero digit.
pub open spec fn root_value(b0: u8, b1: u8, b2: u8) -> Option<u64> {
    let third = if b2 == 43 { Some(0u8) } else { hex_value(b2) };
    match (hex_value(b0), hex_value(b1), third) {
        (Some(y), Some(z), Some(x)) => Some((y * 256 + z * 16 + x) as u64),
        _ => None,
    }
}

/// First odd position from `i` on (stepping by two) that does not hold a dot.
pub open spec fn first_bad_dot(b: Seq<u8>, i: int) -> Option<int>
    decreases b.len() + 1 - i,
{
    if i >= b.len() || i < 0 {
        None
    } else if b[i] != 46 {
        Some(i)
    } else {
        first_bad_dot(b, i + 2)
    }
}

/// Byte position of bit `j` (bits are counted from 12).
pub open spec fn bit_pos(j: int) -> int {
    4 + 2 * j
}

/// First present bit position from bit `j` on that holds neither '0' nor '1'.
pub open spec fn first_bad_bit(b: Seq<u8>, j: int) -> Option<int>
    decreases 52 - j,
{
    if j >= 52 || j < 0 {
        None
    } else if bit_pos(j) < b.len() && b[bit_pos(j)] != 48 && b[bit_pos(j)] != 49 {
        Some(bit_pos(j))
    } else {
        first_bad_bit(b, j + 1)
    }
}

/// Value of bit `j` as read: 1 for a present '1', 0 otherwise.
pub open spec fn read_bit(b: Seq<u8>, j: int) -> u64 {
    if bit_pos(j) < b.len() && b[bit_pos(j)] == 49 {
        1
    } else {
        0
    }
}

/// The root followed by the first `k` bits read.
pub open spec fn read_bits(b: Seq<u8>, root: u64, k: nat) -> u64
    decreases k,
{
    if k == 0 {
        root
    } else {
        (read_bits(b, root, (k - 1) as nat) << 1u64) | read_bit(b, k - 1)
    }
}

/// Number of bit characters that are present.
pub open spec fn present_bits(len: int) -> int {
    if len < 3 {
        0
    } else if (len - 3) / 2 > 52 {
        52
    } else {
        (len - 3) / 2
    }
}

/// What reading a path from its bytes yields.
pub open spec fn parse_spec(b: Seq<u8>) -> Result<Ipv6Prefix, PathParseError> {
    if b.len() < 3 {
        Err(PathParseError::TooShort)
    } else {
        match root_value(b[0], b[1], b[2]) {
            None => Err(PathParseError::InvalidRoot),
            Some(root) => match first_bad_dot(b, 3) {
                Some(p) => Err(PathParseError::ExpectedDot { pos: p as usize }),
                None => match first_bad_bit(b, 0) {
                    Some(p) => Err(PathParseError::ExpectedBit { pos: p as usize }),
                    None => if present_bits(b.len() as int) == 52 && b.len() > 107 {
                        Err(PathParseError::TooLong)
                    } else {
                        Ok(
                            Ipv6Prefix {
                                addr: (read_bits(b, root, 52) as u128) << 64u128,
                                len: (12 + present_bits(b.len() as int)) as u8,
                            },
                        )
                    },
                },
            },
        }
    }
}

/// The bytes of an ASCII character sequence.
pub open spec fn ascii_bytes(s: Seq<char>) -> Seq<u8> {
    s.map_values(|c: char| c as u8)
}


/// A prefix as a node of the prefix tree, addressed by its ltree path.
#[derive(Debug, Clone, Copy)]
pub struct PrefixPath {
    net: Ipv6Prefix,
}

impl PrefixPath {
    #[verifier::type_invariant]
    spec fn inv(self) -> bool {
        self.net.wf()
    }

    /// The network this path stands for.
    pub closed spec fn net_spec(self) -> Ipv6Prefix {
        self.net
    }

    /// The path of a network.
    pub fn from(net: Ipv6Prefix) -> (res: Self)
        requires
            net.wf(),
        ensures
            res.net_spec() == net,
    {
        PrefixPath { net }
    }

    /// The network of a path.
    pub fn to_net(&self) -> (res: Ipv6Prefix)
        ensures
            res == self.net_spec(),
            res.wf(),
    {
        proof {
            use_type_invariant(self);
        }
        self.net
    }

    /// The ltree form of the path: the root digits of the network address,
    /// then ".0"/".1" for each network bit from bit 12 up to the prefix length
    /// (at most 64).
    pub fn to_path_string(&self) -> (res: String)
        ensures
            res@ == path_chars(self.net_spec()),
    {
        proof {
            use_type_invariant(self);
        }
        let network = self.net.network();
        let mut out = String::new();
        Self::fmt_root_cidr12(&mut out, network);
        self.fmt_netmask_as_bits(&mut out, network);
        proof {
            assert(out@ =~= path_chars(self.net));
        }
        out
    }

    /// Appends the three hex digits of the first twelve bits.
    fn fmt_root_cidr12(out: &mut String, network: u128)
        ensures
            final(out)@ == old(out)@ + root_chars(network),
    {
        let first_octet = (network >> 120u128) as u8;
        let second_octet = (network >> 112u128) as u8;
        proof {
            lemma_root_nibbles(network);
        }
        push_char(out, hex_digit(first_octet >> 4u8));
        push_char(out, hex_digit(first_octet & 0xfu8));
        push_char(out, hex_digit(second_octet >> 4u8));
        proof {
            assert(out@ =~= old(out)@ + root_chars(network));
        }
    }

    /// Appends ".0" or ".1" for every network bit from bit 12 up to the
    /// prefix length, but no further than bit 64.
    fn fmt_netmask_as_bits(&self, out: &mut String, network: u128)
        requires
            self.net.wf(),
        ensures
            final(out)@ == old(out)@ + bit_chars(
                network,
                12,
                if self.net.len < 64 { self.net.len as int } else { 64 },
            ),
    {
        let prefix_len: u8 = if self.net.len < MAX_PATH_PREFIX_LEN {
            self.net.len
        } else {
            MAX_PATH_PREFIX_LEN
        };
        let start: u8 = ROOT_LEN_BITS;
        if prefix_len <= start {
            proof {
                assert(bit_chars(network, 12, prefix_len as int) =~= Seq::<char>::empty());
                assert(out@ =~= old(out)@ + Seq::<char>::empty());
            }
            return ;
        }
        let mut bit_idx: u8 = start;
        while bit_idx < prefix_len
            invariant
                12 <= bit_idx <= prefix_len <= 64,
                out@ == old(out)@ + bit_chars(network, 12, bit_idx as int),
            decreases prefix_len - bit_idx,
        {
            let bit = (network >> ((127 - bit_idx) as u128)) & 1u128;
            push_char(out, '.');
            if bit == 1u128 {
                push_char(out, '1');
            } else {
                push_char(out, '0');
            }
            proof {
                assert(bit_chars(network, 12, bit_idx + 1) =~= bit_chars(network, 12, bit_idx as int)
                    + seq!['.', if addr_bit(network, bit_idx as int) { '1' } else { '0' }]);
            }
            bit_idx = bit_idx + 1;
        }
    }

    /// Reads a path back into the prefix it stands for. A path holds three hex
    /// digits, then a dot before every bit, with at most 52 bits; the prefix
    /// length is 12 plus the number of bits, and missing bits are zero.
    pub fn from_str(s: &str) -> (res: Result<PrefixPath, PathParseError>)
        ensures
            match parse_spec(s.spec_bytes()) {
                Ok(p) => res matches Ok(r) && r.net_spec() == p,
                Err(e) => res == Err::<PrefixPath, PathParseError>(e),
            },
    {
        let bytes = s.as_bytes();
        let n = bytes.len();
        if n < 3 {
            return Err(PathParseError::TooShort);
        }
        let root = match parse_root(bytes[0], bytes[1], bytes[2]) {
            Some(r) => r,
            None => {
                return Err(PathParseError::InvalidRoot);
            },
        };
        let ghost b = bytes@;
        let mut dot_idx: usize = 3;
        while dot_idx < n
            invariant
                n == b.len(),
                b == bytes@,
                b == s.spec_bytes(),
                3 <= dot_idx <= n + 1,
                n >= 3,
                root_value(b[0], b[1], b[2]) == Some(root),
                first_bad_dot(b, 3) == first_bad_dot(b, dot_idx as int),
            decreases n + 1 - dot_idx,
        {
            if bytes[dot_idx] != 46u8 {
                assert(first_bad_dot(b, dot_idx as int) == Some(dot_idx as int));
                return Err(PathParseError::ExpectedDot { pos: dot_idx });
            }
            if n - dot_idx <= 2 {
                assert(first_bad_dot(b, dot_idx + 2) is None);
                dot_idx = n;
            } else {
                dot_idx = dot_idx + 2;
            }
        }
        let mut work_prefix_len: Option<u8> = None;
        let mut acc: u64 = root;
        let mut j: usize = 0;
        while j < 52
            invariant
                n == b.len(),
                b == bytes@,
                b == s.spec_bytes(),
                n >= 3,
                j <= 52,
                first_bad_dot(b, 3) is None,
                root_value(b[0], b[1], b[2]) == Some(root),
                first_bad_bit(b, 0) == first_bad_bit(b, j as int),
                acc == read_bits(b, root, j as nat),
                work_prefix_len == (if present_bits(n as int) < j {
                    Some((12 + present_bits(n as int)) as u8)
                } else {
                    None
                }),
            decreases 52 - j,
        {
            let pos = 4 + 2 * j;
            let bit: u64 = if pos < n {
                let c = bytes[pos];
                if c == 48u8 {
                    0
                } else if c == 49u8 {
                    1
                } else {
                    assert(first_bad_bit(b, j as int) == Some(pos as int));
                    return Err(PathParseError::ExpectedBit { pos });
                }
            } else {
                if work_prefix_len.is_none() {
                    work_prefix_len = Some((12 + j) as u8);
                }
                0
            };
            acc = (acc << 1u64) | bit;
            j = j + 1;
        }
        let prefix_len: u8 = match work_prefix_len {
            Some(len) => len,
            None => {
                if n > 107 {
                    return Err(PathParseError::TooLong);
                } else {
                    64
                }
            },
        };
        let addr: u128 = (acc as u128) << 64u128;
        match Ipv6Prefix::new(addr, prefix_len) {
            Some(net) => Ok(PrefixPath::from(net)),
            None => Err(PathParseError::InvalidPrefixLen),
        }
    }
}

/// The root bits from the first three bytes, as `u16::from_str_radix` reads
/// the hex number formed from them.
fn parse_root(b0: u8, b1: u8, b2: u8) -> (res: Option<u64>)
    ensures
        res == root_value(b0, b1, b2),
        res matches Some(r) ==> r < 4096,
{
    let third = if b2 == 43u8 { Some(0u8) } else { parse_hex_digit(b2) };
    match (parse_hex_digit(b0), parse_hex_digit(b1), third) {
        (Some(y), Some(z), Some(x)) => Some((y as u64) * 256 + (z as u64) * 16 + (x as u64)),
        _ => None,
    }
}

/// Value of a hex digit.
fn parse_hex_digit(c: u8) -> (res: Option<u8>)
    ensures
        res == hex_value(c),
        res matches Some(v) ==> v < 16,
{
    if 48u8 <= c && c <= 57u8 {
        Some(c - 48u8)
    } else if 97u8 <= c && c <= 102u8 {
        Some(c - 87u8)
    } else if 65u8 <= c && c <= 70u8 {
        Some(c - 55u8)
    } else {
        None
    }
}

/// Lower-case hex digit of a nibble.
fn hex_digit(v: u8) -> (res: char)
    requires
        v < 16,
    ensures
        res == hex_char(v as u128),
{
    if v < 10u8 {
        (v + 48u8) as char
    } else {
        (v + 87u8) as char
    }
}

/// `String::push`: appends one character.
#[verifier::external_body]
fn push_char(s: &mut String, c: char)
    ensures
        final(s)@ == old(s)@.push(c),
{
    s.push(c)
}

proof fn lemma_root_nibbles(network: u128)
    ensures
        (((network >> 120u128) as u8) >> 4u8) as u128 == (network >> 124u128) & 0xfu128,
        (((network >> 120u128) as u8) & 0xfu8) as u128 == (network >> 120u128) & 0xfu128,
        (((network >> 112u128) as u8) >> 4u8) as u128 == (network >> 116u128) & 0xfu128,
        ((network >> 120u128) as u8) >> 4u8 < 16,
        ((network >> 120u128) as u8) & 0xfu8 < 16,
        ((network >> 112u128) as u8) >> 4u8 < 16,
{
    assert((((network >> 120u128) as u8) >> 4u8) as u128 == (network >> 124u128) & 0xfu128)
        by (bit_vector);
    assert((((network >> 120u128) as u8) & 0xfu8) as u128 == (network >> 120u128) & 0xfu128)
        by (bit_vector);
    assert((((network >> 112u128) as u8) >> 4u8) as u128 == (network >> 116u128) & 0xfu128)
        by (bit_vector);
    assert(((network >> 120u128) as u8) >> 4u8 < 16) by (bit_vector);
    assert(((network >> 120u128) as u8) & 0xfu8 < 16) by (bit_vector);
    assert(((network >> 112u128) as u8) >> 4u8 < 16) by (bit_vector);
}


/// Reading back the path of a network whose prefix length lies between 12 and
/// 64 gives that network: its network address and its prefix length.
pub proof fn lemma_path_roundtrip(p: Ipv6Prefix)
    requires
        p.wf(),
        12 <= p.len <= 64,
    ensures
        parse_spec(ascii_bytes(path_chars(p))) == Ok::<Ipv6Prefix, PathParseError>(
            Ipv6Prefix { addr: spec_network(p.addr, p.len), len: p.len },
        ),
{
    let net = spec_network(p.addr, p.len);
    let len = p.len;
    let cs = path_chars(p);
    let b = ascii_bytes(cs);
    let h: u64 = (net >> 64u128) as u64;
    assert(cs.len() == 3 + 2 * (len - 12));
    assert(b.len() == cs.len());
    // root digits
    let y = (net >> 124u128) & 0xfu128;
    let z = (net >> 120u128) & 0xfu128;
    let x = (net >> 116u128) & 0xfu128;
    lemma_root_of(p.addr, len);
    lemma_hex_roundtrip(y);
    lemma_hex_roundtrip(z);
    lemma_hex_roundtrip(x);
    assert(b[0] == hex_char(y) as u8);
    assert(b[1] == hex_char(z) as u8);
    assert(b[2] == hex_char(x) as u8);
    let root = (y * 256 + z * 16 + x) as u64;
    assert(root_value(b[0], b[1], b[2]) == Some(root));
    assert(root == h >> 52u64);
    // dots
    assert forall|m: int| 3 <= m < b.len() && (m - 3) % 2 == 0 implies b[m] == 46u8 by {
        assert(cs[m] == bit_chars(net, 12, len as int)[m - 3]);
    }
    lemma_no_bad_dot(b, 3);
    // bits
    assert forall|j: int| 0 <= j < 52 && bit_pos(j) < b.len() implies (b[bit_pos(j)] == 49u8
        <==> addr_bit(net, 12 + j)) && (b[bit_pos(j)] == 48u8 || b[bit_pos(j)] == 49u8) by {
        assert(cs[bit_pos(j)] == bit_chars(net, 12, len as int)[bit_pos(j) - 3]);
        assert((bit_pos(j) - 3) / 2 == j);
    }
    lemma_no_bad_bit(b, 0);
    assert(present_bits(b.len() as int) == len - 12);
    lemma_read_bits(p.addr, len, b, root, 52);
    lemma_network_high_half(p.addr, len);
}

proof fn lemma_no_bad_dot(b: Seq<u8>, i: int)
    requires
        i >= 0,
        forall|m: int| i <= m < b.len() && (m - i) % 2 == 0 ==> b[m] == 46u8,
    ensures
        first_bad_dot(b, i) is None,
    decreases b.len() + 1 - i,
{
    if i < b.len() {
        assert(b[i] == 46u8);
        assert forall|m: int| i + 2 <= m < b.len() && (m - (i + 2)) % 2 == 0 implies b[m] == 46u8 by {
            assert((m - i) % 2 == 0);
        }
        lemma_no_bad_dot(b, i + 2);
    }
}

proof fn lemma_no_bad_bit(b: Seq<u8>, j: int)
    requires
        j >= 0,
        forall|k: int| 0 <= k < 52 && bit_pos(k) < b.len() ==> (b[bit_pos(k)] == 48u8 || b[bit_pos(k)] == 49u8),
    ensures
        first_bad_bit(b, j) is None,
    decreases 52 - j,
{
    if j < 52 {
        lemma_no_bad_bit(b, j + 1);
    }
}

proof fn lemma_read_bits(addr: u128, len: u8, b: Seq<u8>, root: u64, k: nat)
    requires
        12 <= len <= 64,
        k <= 52,
        b.len() == 3 + 2 * (len - 12),
        root == ((spec_network(addr, len) >> 64u128) as u64) >> 52u64,
        forall|j: int| 0 <= j < 52 && bit_pos(j) < b.len() ==> (b[bit_pos(j)] == 49u8
            <==> addr_bit(spec_network(addr, len), 12 + j)),
    ensures
        read_bits(b, root, k) == ((spec_network(addr, len) >> 64u128) as u64) >> ((52 - k) as u64),
    decreases k,
{
    let net = spec_network(addr, len);
    let h: u64 = (net >> 64u128) as u64;
    if k > 0 {
        lemma_read_bits(addr, len, b, root, (k - 1) as nat);
        let j: u64 = (k - 1) as u64;
        lemma_shift_step(h, j);
        lemma_bit_of_high(net, j);
        if bit_pos(j as int) < b.len() {
            assert(read_bit(b, j as int) == (h >> ((51 - j) as u64)) & 1u64);
        } else {
            assert(12 + j >= len);
            lemma_zero_bit(addr, len as u128, j);
            assert(read_bit(b, j as int) == 0);
        }
    }
}

proof fn lemma_shift_step(h: u64, j: u64)
    by (bit_vector)
    requires
        j < 52,
    ensures
        (h >> ((51 - j) as u64)) == ((h >> ((52 - j) as u64)) << 1u64) | ((h >> ((51 - j) as u64))
            & 1u64),
        ((h >> ((51 - j) as u64)) & 1u64) <= 1u64,
{
}

proof fn lemma_bit_of_high(net: u128, j: u64)
    requires
        j < 52,
    ensures
        addr_bit(net, 12 + j) <==> (((net >> 64u128) as u64) >> ((51 - j) as u64)) & 1u64 == 1u64,
        ((((net >> 64u128) as u64) >> ((51 - j) as u64)) & 1u64) <= 1u64,
{
    let s: u128 = (127 - (12 + j)) as u128;
    assert(((net >> s) & 1u128 == 1u128) <==> ((((net >> 64u128) as u64) >> ((51 - j) as u64))
        & 1u64 == 1u64)) by (bit_vector)
        requires
            j < 52,
            s == (115 - j) as u128,
    ;
    assert(((((net >> 64u128) as u64) >> ((51 - j) as u64)) & 1u64) <= 1u64) by (bit_vector);
}

proof fn lemma_zero_bit(addr: u128, len: u128, j: u64)
    requires
        len <= 64,
        12 + j >= len,
        j < 52,
    ensures
        ((((spec_network(addr, len as u8) >> 64u128) as u64) >> ((51 - j) as u64)) & 1u64) == 0u64,
{
    if len == 0 {
        assert(spec_network(addr, 0) == 0) by (bit_vector);
        assert(((((0u128 >> 64u128) as u64) >> ((51 - j) as u64)) & 1u64) == 0u64) by (bit_vector);
    } else {
        assert(spec_network(addr, len as u8) == addr & (u128::MAX << ((128 - len) as u128)));
        assert(((((addr & (u128::MAX << ((128 - len) as u128))) >> 64u128) as u64) >> ((51 - j) as u64))
            & 1u64 == 0u64) by (bit_vector)
            requires
                1 <= len <= 64,
                12 + j >= len,
                j < 52,
        ;
    }
}

proof fn lemma_root_of(addr: u128, len: u8)
    ensures
        ({
            let net = spec_network(addr, len);
            &&& (((net >> 124u128) & 0xfu128) * 256 + ((net >> 120u128) & 0xfu128) * 16 + ((net
                >> 116u128) & 0xfu128)) as u64 == ((net >> 64u128) as u64) >> 52u64
            &&& (net >> 124u128) & 0xfu128 < 16
            &&& (net >> 120u128) & 0xfu128 < 16
            &&& (net >> 116u128) & 0xfu128 < 16
        }),
{
    let net = spec_network(addr, len);
    assert((((net >> 124u128) & 0xfu128) * 256 + ((net >> 120u128) & 0xfu128) * 16 + ((net
        >> 116u128) & 0xfu128)) as u64 == ((net >> 64u128) as u64) >> 52u64) by (bit_vector);
    assert((net >> 124u128) & 0xfu128 < 16) by (bit_vector);
    assert((net >> 120u128) & 0xfu128 < 16) by (bit_vector);
    assert((net >> 116u128) & 0xfu128 < 16) by (bit_vector);
}

proof fn lemma_hex_roundtrip(v: u128)
    requires
        v < 16,
    ensures
        hex_value(hex_char(v) as u8) == Some(v as u8),
{
}

proof fn lemma_network_high_half(addr: u128, len: u8)
    requires
        1 <= len <= 64,
    ensures
        ((((spec_network(addr, len) >> 64u128) as u64) >> 0u64) as u128) << 64u128 == spec_network(
            addr,
            len,
        ),
{
    let l = len as u128;
    assert(spec_network(addr, len) == addr & (u128::MAX << ((128 - l) as u128)));
    assert(((((addr & (u128::MAX << ((128 - l) as u128))) >> 64u128) as u64 >> 0u64) as u128)
        << 64u128 == addr & (u128::MAX << ((128 - l) as u128))) by (bit_vector)
        requires
            1 <= l <= 64,
    ;
}

} // verus!
