//! Endpoint records and the line parser: one text line (`address:port` or
//! `address:port:kind`) becomes a validated endpoint or a per-line error.

use vstd::prelude::*;
use crate::ip::{ip_of_text, parse_ip, IpAddress};
use crate::text::{
    all_dec_digits, chars_eq_ci, dec_val, eq_ci, is_dec_digit, lemma_dec_val_prefix_le,
    lemma_split_concat, lemma_split_no_sep, split_on, split_on_spec,
};

verus! {

/// The protocol kind of a proxy endpoint.
#[derive(Debug, Clone, Copy, PartialEq, Eq, Structural)]
pub enum EndpointKind {
    Http,
    Https,
    Socks4,
    Socks5,
}

/// The canonical (lower-case) label of a kind.
pub open spec fn kind_text(k: EndpointKind) -> Seq<char> {
    match k {
        EndpointKind::Http => seq!['h', 't', 't', 'p'],
        EndpointKind::Https => seq!['h', 't', 't', 'p', 's'],
        EndpointKind::Socks4 => seq!['s', 'o', 'c', 'k', 's', '4'],
        EndpointKind::Socks5 => seq!['s', 'o', 'c', 'k', 's', '5'],
    }
}

/// The kind a text names, matched case-insensitively against the four
/// recognized labels.
pub open spec fn kind_of_text(s: Seq<char>) -> Option<EndpointKind> {
    if eq_ci(s, kind_text(EndpointKind::Http)) {
        Some(EndpointKind::Http)
    } else if eq_ci(s, kind_text(EndpointKind::Https)) {
        Some(EndpointKind::Https)
    } else if eq_ci(s, kind_text(EndpointKind::Socks4)) {
        Some(EndpointKind::Socks4)
    } else if eq_ci(s, kind_text(EndpointKind::Socks5)) {
        Some(EndpointKind::Socks5)
    } else {
        None
    }
}

impl EndpointKind {
    /// Parses a kind label, ignoring ASCII case.
    pub fn from_text(s: &str) -> (r: Option<EndpointKind>)
        ensures
            r == kind_of_text(s@),
    {
        proof {
            reveal_strlit("http");
            reveal_strlit("https");
            reveal_strlit("socks4");
            reveal_strlit("socks5");
            assert("http"@ =~= kind_text(EndpointKind::Http));
            assert("https"@ =~= kind_text(EndpointKind::Https));
            assert("socks4"@ =~= kind_text(EndpointKind::Socks4));
            assert("socks5"@ =~= kind_text(EndpointKind::Socks5));
        }
        if chars_eq_ci(s, "http") {
            Some(EndpointKind::Http)
        } else if chars_eq_ci(s, "https") {
            Some(EndpointKind::Https)
        } else if chars_eq_ci(s, "socks4") {
            Some(EndpointKind::Socks4)
        } else if chars_eq_ci(s, "socks5") {
            Some(EndpointKind::Socks5)
        } else {
            None
        }
    }

    /// The canonical lower-case label, as written in the output document.
    pub fn label(&self) -> (r: String)
        ensures
            r@ == kind_text(*self),
    {
        match self {
            EndpointKind::Http => {
                proof {
                    reveal_strlit("http");
                    assert("http"@ =~= kind_text(EndpointKind::Http));
                }
                "http".to_owned()
            },
            EndpointKind::Https => {
                proof {
                    reveal_strlit("https");
                    assert("https"@ =~= kind_text(EndpointKind::Https));
                }
                "https".to_owned()
            },
            EndpointKind::Socks4 => {
                proof {
                    reveal_strlit("socks4");
                    assert("socks4"@ =~= kind_text(EndpointKind::Socks4));
                }
                "socks4".to_owned()
            },
            EndpointKind::Socks5 => {
                proof {
                    reveal_strlit("socks5");
                    assert("socks5"@ =~= kind_text(EndpointKind::Socks5));
                }
                "socks5".to_owned()
            },
        }
    }
}

/// The digits of a port field: an optional leading `+` sign is dropped.
pub open spec fn port_digits(s: Seq<char>) -> Seq<char> {
    if s.len() >= 1 && s[0] == '+' {
        s.drop_first()
    } else {
        s
    }
}

/// The port a text denotes: an optional `+`, then one or more decimal
/// digits whose value fits in 32 bits.
pub open spec fn port_of_text(s: Seq<char>) -> Option<u32> {
    let ds = port_digits(s);
    if ds.len() >= 1 && all_dec_digits(ds) && dec_val(ds) <= u32::MAX {
        Some(dec_val(ds) as u32)
    } else {
        None
    }
}

/// Parses a port field.
pub fn parse_port(s: &str) -> (r: Option<u32>)
    ensures
        r == port_of_text(s@),
{
    let n = s.unicode_len();
    let mut off: usize = 0;
    if n >= 1 && s.get_char(0) == '+' {
        off = 1;
    }
    let ghost ds = port_digits(s@);
    proof {
        assert(ds =~= s@.subrange(off as int, n as int));
    }
    if off == n {
        return None;
    }
    let mut val: u64 = 0;
    let mut i: usize = off;
    proof {
        assert(ds.take(0) =~= Seq::<char>::empty());
    }
    while i < n
        invariant
            n == s@.len(),
            off <= i <= n,
            ds == port_digits(s@),
            ds =~= s@.subrange(off as int, n as int),
            all_dec_digits(ds.take(i - off)),
            val == dec_val(ds.take(i - off)),
            val <= u32::MAX,
        decreases n - i,
    {
        let c = s.get_char(i) as u32;
        if c < 48 || c > 57 {
            proof {
                assert(ds[i - off] == s@[i as int]);
                assert(!is_dec_digit(ds[i - off]));
            }
            return None;
        }
        proof {
            assert(ds[i - off] == s@[i as int]);
            assert(ds.take(i - off + 1).drop_last() =~= ds.take(i - off));
            assert(ds.take(i - off + 1).last() == ds[i - off]);
            assert(all_dec_digits(ds.take(i - off + 1)));
        }
        val = val * 10 + ((c - 48) as u64);
        i += 1;
        if val > 0xffff_ffff {
            proof {
                if all_dec_digits(ds) {
                    lemma_dec_val_prefix_le(ds, i - off);
                }
            }
            return None;
        }
    }
    proof {
        assert(ds.take(n - off) =~= ds);
    }
    Some(val as u32)
}

/// A per-line parse error. The line is skipped and reported; no line ever
/// aborts a run.
#[derive(Debug, Clone, Copy, PartialEq, Eq, Structural)]
pub enum LineError {
    /// The line does not have exactly two or three `:`-separated fields.
    WrongFieldCount,
    /// The port field is not a 32-bit decimal number.
    BadPort,
    /// The kind field matches none of the recognized labels.
    BadKind,
    /// The address field is not an IPv4 or IPv6 literal.
    BadAddress,
}

/// One proxy entry: display name, validated address, port, and kind.
#[derive(Debug, Clone, PartialEq, Eq)]
pub struct Endpoint {
    pub name: String,
    pub address: IpAddress,
    pub port: u32,
    pub kind: EndpointKind,
}

/// The mathematical value of an [`Endpoint`].
pub ghost struct EndpointView {
    pub name: Seq<char>,
    pub address: IpAddress,
    pub port: u32,
    pub kind: EndpointKind,
}

impl View for Endpoint {
    type V = EndpointView;

    open spec fn view(&self) -> EndpointView {
        EndpointView {
            name: self.name@,
            address: self.address,
            port: self.port,
            kind: self.kind,
        }
    }
}

impl Endpoint {
    /// Whether two endpoints are the same full tuple (name, address, port,
    /// kind); such duplicates collapse to one.
    pub fn same_as(&self, other: &Endpoint) -> (r: bool)
        ensures
            r == (self@ == other@),
    {
        self.name == other.name && self.address == other.address && self.port == other.port
            && self.kind == other.kind
    }
}

/// The display name derived from the raw address and port fields.
pub open spec fn name_text(addr: Seq<char>, port: Seq<char>) -> Seq<char> {
    addr + seq![' ', '-', ' '] + port
}

/// What one line of input means: a parsed endpoint, or the error that makes
/// the line invalid. Fields are checked in the order port, kind, address.
pub open spec fn line_model(line: Seq<char>, default: EndpointKind) -> Result<
    EndpointView,
    LineError,
> {
    let parts = split_on_spec(line, ':');
    if parts.len() != 2 && parts.len() != 3 {
        Err(LineError::WrongFieldCount)
    } else if port_of_text(parts[1]) is None {
        Err(LineError::BadPort)
    } else if parts.len() == 3 && kind_of_text(parts[2]) is None {
        Err(LineError::BadKind)
    } else if ip_of_text(parts[0]) is None {
        Err(LineError::BadAddress)
    } else {
        Ok(
            EndpointView {
                name: name_text(parts[0], parts[1]),
                address: ip_of_text(parts[0])->Some_0,
                port: port_of_text(parts[1])->Some_0,
                kind: if parts.len() == 2 {
                    default
                } else {
                    kind_of_text(parts[2])->Some_0
                },
            },
        )
    }
}

/// Parses one line into an endpoint, with `default` as the kind of a
/// two-field line.
pub fn parse_line(line: &str, default: EndpointKind) -> (r: Result<Endpoint, LineError>)
    ensures
        match r {
            Ok(e) => line_model(line@, default) == Ok::<EndpointView, LineError>(e@),
            Err(err) => line_model(line@, default) == Err::<EndpointView, LineError>(err),
        },
{
    let parts = split_on(line, ':');
    let ghost m = parts@.map_values(|p: String| p@);
    if parts.len() != 2 && parts.len() != 3 {
        return Err(LineError::WrongFieldCount);
    }
    let port = match parse_port(parts[1].as_str()) {
        Some(v) => v,
        None => {
            return Err(LineError::BadPort);
        },
    };
    let kind = if parts.len() == 3 {
        match EndpointKind::from_text(parts[2].as_str()) {
            Some(k) => k,
            None => {
                return Err(LineError::BadKind);
            },
        }
    } else {
        default
    };
    let address = match parse_ip(parts[0].as_str()) {
        Some(a) => a,
        None => {
            return Err(LineError::BadAddress);
        },
    };
    let name = parts[0].clone().concat(" - ").concat(parts[1].as_str());
    proof {
        reveal_strlit(" - ");
        assert(" - "@ =~= seq![' ', '-', ' ']);
        assert(name@ =~= name_text(m[0], m[1]));
    }
    Ok(Endpoint { name, address, port, kind })
}

/// A valid two-field line `A:P` parses to one endpoint with the default
/// kind and the display name `A - P`.
pub proof fn lemma_two_field_line(a: Seq<char>, p: Seq<char>, default: EndpointKind)
    requires
        forall|i: int| 0 <= i < a.len() ==> #[trigger] a[i] != ':',
        forall|i: int| 0 <= i < p.len() ==> #[trigger] p[i] != ':',
        ip_of_text(a) is Some,
        port_of_text(p) is Some,
    ensures
        line_model(a + seq![':'] + p, default) == Ok::<EndpointView, LineError>(
            EndpointView {
                name: name_text(a, p),
                address: ip_of_text(a)->Some_0,
                port: port_of_text(p)->Some_0,
                kind: default,
            },
        ),
{
    lemma_split_no_sep(a, ':');
    lemma_split_no_sep(p, ':');
    lemma_split_concat(a, p, ':');
    assert(split_on_spec(a + seq![':'] + p, ':') =~~= seq![a, p]);
}

/// A valid three-field line `A:P:K` parses to one endpoint whose kind is the
/// normalized reading of `K`, matched case-insensitively.
pub proof fn lemma_three_field_line(a: Seq<char>, p: Seq<char>, k: Seq<char>, default: EndpointKind)
    requires
        forall|i: int| 0 <= i < a.len() ==> #[trigger] a[i] != ':',
        forall|i: int| 0 <= i < p.len() ==> #[trigger] p[i] != ':',
        forall|i: int| 0 <= i < k.len() ==> #[trigger] k[i] != ':',
        ip_of_text(a) is Some,
        port_of_text(p) is Some,
        kind_of_text(k) is Some,
    ensures
        line_model(a + seq![':'] + p + seq![':'] + k, default) == Ok::<EndpointView, LineError>(
            EndpointView {
                name: name_text(a, p),
                address: ip_of_text(a)->Some_0,
                port: port_of_text(p)->Some_0,
                kind: kind_of_text(k)->Some_0,
            },
        ),
{
    lemma_split_no_sep(a, ':');
    lemma_split_no_sep(p, ':');
    lemma_split_no_sep(k, ':');
    lemma_split_concat(p, k, ':');
    lemma_split_concat(a, p + seq![':'] + k, ':');
    assert(a + seq![':'] + p + seq![':'] + k =~= a + seq![':'] + (p + seq![':'] + k));
    assert(split_on_spec(a + seq![':'] + p + seq![':'] + k, ':') =~~= seq![a, p, k]);
}

/// A line whose field count is not two or three never yields an endpoint:
/// it is reported as a wrong-field-count error and the run continues.
pub proof fn lemma_wrong_field_count(line: Seq<char>, default: EndpointKind)
    requires
        split_on_spec(line, ':').len() != 2,
        split_on_spec(line, ':').len() != 3,
    ensures
        line_model(line, default) == Err::<EndpointView, LineError>(LineError::WrongFieldCount),
{
}

} // verus!
