//! The port text parser: turns the columnar output of the socket-listing
//! utility into structured records, then deduplicates and sorts them.

use vstd::prelude::*;
use vstd::string::*;

use crate::model::{CommandCapture, PortInfo, ProcError};
use crate::text::{
    find_pair, find_pair_spec, join_from, join_sp, last_colon, last_colon_spec, parse_i32,
    parse_i32_spec, parse_u16, parse_u16_spec, split_fields, split_lines, split_ws, lines_spec,
    starts_with_spec, str_starts_with, trim_class, trim_class_spec, trim_end_class,
    trim_end_class_spec, trim_start_class, trim_start_class_spec, upper_seq, ascii_upper,
    CharClass,
};

verus! {

broadcast use vstd::seq::group_seq_axioms, vstd::seq_lib::group_seq_lib_default,
    vstd::string::group_string_axioms;

/// A port record as mathematics: every textual field a character sequence.
pub struct PortRec {
    pub protocol: Seq<char>,
    pub local_address: Seq<char>,
    pub port: u16,
    pub state: Option<Seq<char>>,
    pub pid: Option<i32>,
    pub process_name: Option<Seq<char>>,
}

impl View for PortInfo {
    type V = PortRec;

    open spec fn view(&self) -> PortRec {
        PortRec {
            protocol: self.protocol@,
            local_address: self.local_address@,
            port: self.port,
            state: match self.state {
                Some(s) => Some(s@),
                None => None,
            },
            pid: self.pid,
            process_name: match self.process_name {
                Some(s) => Some(s@),
                None => None,
            },
        }
    }
}

/// What the endpoint parser yields: the part before any arrow is trimmed,
/// split at its last colon into an address and a port number, the address
/// stripped of brackets, an empty address standing for the wildcard.
pub open spec fn parse_endpoint_spec(endpoint: Seq<char>) -> Option<(Seq<char>, u16)> {
    let local0 = match find_pair_spec(endpoint, '-', '>') {
        Some(i) => endpoint.take(i),
        None => endpoint,
    };
    let local = trim_class_spec(CharClass::Space, local0);
    match last_colon_spec(local) {
        None => None,
        Some(sep) => {
            let address = local.take(sep);
            let port_text = trim_start_class_spec(CharClass::Colon, local.skip(sep));
            match parse_u16_spec(port_text) {
                None => None,
                Some(port) => {
                    let norm = trim_class_spec(CharClass::Bracket, address);
                    if norm.len() == 0 {
                        Some((seq!['*'], port))
                    } else {
                        Some((norm, port))
                    }
                },
            }
        },
    }
}

/// Splits an endpoint such as `addr:port` or `addr:port->peer:port` into its
/// local address and port, as the specification's endpoint rule states.
pub fn parse_endpoint(endpoint: &str) -> (r: Option<(String, u16)>)
    ensures
        match r {
            Some(p) => parse_endpoint_spec(endpoint@) == Some((p.0@, p.1)),
            None => parse_endpoint_spec(endpoint@) is None,
        },
{
    let local0: &str = match find_pair(endpoint, '-', '>') {
        Some(i) => {
            let t = endpoint.substring_char(0, i);
            proof {
                assert(t@ =~= endpoint@.take(i as int));
            }
            t
        },
        None => endpoint,
    };
    let local = trim_class(local0, CharClass::Space);
    let sep = match last_colon(local) {
        None => {
            return None;
        },
        Some(s) => s,
    };
    let address = local.substring_char(0, sep);
    let port_text0 = local.substring_char(sep, local.unicode_len());
    proof {
        assert(address@ =~= local@.take(sep as int));
        assert(port_text0@ =~= local@.skip(sep as int));
    }
    let port_text = trim_start_class(port_text0, CharClass::Colon);
    let port = match parse_u16(port_text) {
        None => {
            return None;
        },
        Some(p) => p,
    };
    let norm = trim_class(address, CharClass::Bracket);
    if norm.unicode_len() == 0 {
        let star = String::from_str("*");
        proof {
            reveal_strlit("*");
            assert(star@ =~= seq!['*']);
        }
        Some((star, port))
    } else {
        Some((norm.to_owned(), port))
    }
}

/// What one line of utility output parses to: nothing for the header line or
/// a line of fewer than nine fields; otherwise the first field names the
/// process, the second is its PID, the seventh the protocol (uppercased),
/// and the fields from the eighth on form the name segment, whose trailing
/// parenthesized suffix is the state and whose front is the endpoint.
pub open spec fn parse_line_spec(line: Seq<char>) -> Option<PortRec> {
    let cols = split_ws(line);
    if starts_with_spec(line, "COMMAND"@) || cols.len() < 9 {
        None
    } else {
        let name_segment = join_sp(cols.skip(7));
        let ep_state = match find_pair_spec(name_segment, ' ', '(') {
            Some(idx) => (
                trim_class_spec(CharClass::Space, name_segment.take(idx)),
                Some(
                    trim_end_class_spec(
                        CharClass::RParen,
                        trim_start_class_spec(
                            CharClass::LParen,
                            trim_class_spec(CharClass::Space, name_segment.skip(idx)),
                        ),
                    ),
                ),
            ),
            None => (trim_class_spec(CharClass::Space, name_segment), None::<Seq<char>>),
        };
        match parse_endpoint_spec(ep_state.0) {
            None => None,
            Some(ap) => Some(
                PortRec {
                    protocol: upper_seq(cols[6]),
                    local_address: ap.0,
                    port: ap.1,
                    state: ep_state.1,
                    pid: parse_i32_spec(cols[1]),
                    process_name: Some(cols[0]),
                },
            ),
        }
    }
}

/// Parses one line of the socket-listing utility's output, yielding nothing
/// for the header line, short lines and unparsable endpoints.
pub fn parse_lsof_line(line: &str) -> (r: Option<PortInfo>)
    ensures
        match r {
            Some(p) => parse_line_spec(line@) == Some(p@),
            None => parse_line_spec(line@) is None,
        },
{
    if str_starts_with(line, "COMMAND") {
        return None;
    }
    let columns = split_fields(line);
    if columns.len() < 9 {
        return None;
    }
    let ghost cols = split_ws(line@);
    proof {
        assert(cols.len() == columns@.len());
        assert(columns@[0]@ == cols[0]);
        assert(columns@[1]@ == cols[1]);
        assert(columns@[6]@ == cols[6]);
    }
    let process_name = columns[0].clone();
    let pid = parse_i32(columns[1].as_str());
    let protocol = ascii_upper(columns[6].as_str());
    let name_segment = join_from(&columns, 7);
    proof {
        assert(columns.deep_view().skip(7) =~= cols.skip(7));
    }
    let ep_str: &str;
    let mut state: Option<String> = None;
    match find_pair(name_segment.as_str(), ' ', '(') {
        Some(idx) => {
            let ep_raw = name_segment.as_str().substring_char(0, idx);
            let rest = name_segment.as_str().substring_char(idx, name_segment.as_str().unicode_len());
            proof {
                assert(ep_raw@ =~= name_segment@.take(idx as int));
                assert(rest@ =~= name_segment@.skip(idx as int));
            }
            ep_str = trim_class(ep_raw, CharClass::Space);
            let st = trim_end_class(
                trim_start_class(trim_class(rest, CharClass::Space), CharClass::LParen),
                CharClass::RParen,
            );
            state = Some(st.to_owned());
        },
        None => {
            ep_str = trim_class(name_segment.as_str(), CharClass::Space);
        },
    }
    match parse_endpoint(ep_str) {
        None => None,
        Some(lp) => {
            let (local_address, port) = lp;
            Some(
                PortInfo {
                    protocol,
                    local_address,
                    port,
                    state,
                    pid,
                    process_name: Some(process_name),
                },
            )
        },
    }
}

/// The composite identity of a record: protocol, local address, port, PID
/// (an unknown PID counting as zero) and state.
pub open spec fn same_key(a: PortRec, b: PortRec) -> bool {
    &&& a.protocol == b.protocol
    &&& a.local_address == b.local_address
    &&& a.port == b.port
    &&& (match a.pid {
        Some(p) => p,
        None => 0,
    }) == (match b.pid {
        Some(p) => p,
        None => 0,
    })
    &&& a.state == b.state
}

/// Whether some record of `s` shares `x`'s key.
pub open spec fn has_key(s: Seq<PortRec>, x: PortRec) -> bool {
    exists|i: int| 0 <= i < s.len() && same_key(#[trigger] s[i], x)
}

/// The records with every later repetition of an already-seen key dropped.
pub open spec fn dedup_ports(s: Seq<PortRec>) -> Seq<PortRec>
    decreases s.len(),
{
    if s.len() == 0 {
        Seq::empty()
    } else {
        let prefix = dedup_ports(s.drop_last());
        if has_key(s.drop_last(), s.last()) {
            prefix
        } else {
            prefix.push(s.last())
        }
    }
}

proof fn lemma_dedup_ports_keys(s: Seq<PortRec>, x: PortRec)
    ensures
        has_key(dedup_ports(s), x) <==> has_key(s, x),
    decreases s.len(),
{
    broadcast use vstd::seq_lib::group_seq_properties;

    if s.len() > 0 {
        let t = s.drop_last();
        lemma_dedup_ports_keys(t, x);
        assert(s =~= t.push(s.last()));
        if has_key(t, s.last()) {
            if has_key(s, x) && !has_key(t, x) {
                let i = choose|i: int| 0 <= i < s.len() && same_key(s[i], x);
                assert(i == s.len() - 1);
                let j = choose|j: int| 0 <= j < t.len() && same_key(t[j], s.last());
                assert(same_key(t[j], x));
            }
        } else {
            let d = dedup_ports(s);
            assert(d == dedup_ports(t).push(s.last()));
            if has_key(s, x) {
                let i = choose|i: int| 0 <= i < s.len() && same_key(s[i], x);
                if i == s.len() - 1 {
                    assert(same_key(d[d.len() - 1], x));
                } else {
                    assert(same_key(t[i], x));
                    assert(has_key(dedup_ports(t), x));
                    let j = choose|j: int| 0 <= j < dedup_ports(t).len() && same_key(
                        dedup_ports(t)[j],
                        x,
                    );
                    assert(same_key(d[j], x));
                }
            }
            if has_key(d, x) {
                let i = choose|i: int| 0 <= i < d.len() && same_key(d[i], x);
                if i == d.len() - 1 {
                    assert(same_key(s[s.len() - 1], x));
                } else {
                    assert(same_key(dedup_ports(t)[i], x));
                }
            }
        }
    }
}

/// Deduplication leaves no two records that share a key.
pub proof fn lemma_dedup_ports_distinct(s: Seq<PortRec>)
    ensures
        forall|i: int, j: int|
            0 <= i < j < dedup_ports(s).len() ==> !same_key(
                #[trigger] dedup_ports(s)[i],
                #[trigger] dedup_ports(s)[j],
            ),
    decreases s.len(),
{
    if s.len() > 0 {
        let t = s.drop_last();
        lemma_dedup_ports_distinct(t);
        if !has_key(t, s.last()) {
            let d = dedup_ports(s);
            assert forall|i: int, j: int| 0 <= i < j < d.len() implies !same_key(d[i], d[j]) by {
                if j == d.len() - 1 {
                    lemma_dedup_ports_keys(t, d[j]);
                    if same_key(d[i], d[j]) {
                        assert(same_key(dedup_ports(t)[i], s.last()));
                        assert(has_key(dedup_ports(t), s.last()));
                    }
                }
            }
        }
    }
}

fn opt_string_eq(a: &Option<String>, b: &Option<String>) -> (r: bool)
    ensures
        r == ((match a {
            Some(s) => Some(s@),
            None => None::<Seq<char>>,
        }) == (match b {
            Some(s) => Some(s@),
            None => None::<Seq<char>>,
        })),
{
    match (a, b) {
        (Some(x), Some(y)) => x.eq(y),
        (None, None) => true,
        _ => false,
    }
}

fn key_eq(a: &PortInfo, b: &PortInfo) -> (r: bool)
    ensures
        r == same_key(a@, b@),
{
    let pa = match a.pid {
        Some(p) => p,
        None => 0,
    };
    let pb = match b.pid {
        Some(p) => p,
        None => 0,
    };
    a.protocol == b.protocol && a.local_address == b.local_address && a.port == b.port && pa == pb
        && opt_string_eq(&a.state, &b.state)
}

fn seen_key(v: &Vec<PortInfo>, x: &PortInfo) -> (r: bool)
    ensures
        r == has_key(v@.map_values(|p: PortInfo| p@), x@),
{
    let ghost vs = v@.map_values(|p: PortInfo| p@);
    let mut i: usize = 0;
    while i < v.len()
        invariant
            i <= v@.len(),
            vs == v@.map_values(|p: PortInfo| p@),
            forall|j: int| 0 <= j < i ==> !same_key(#[trigger] vs[j], x@),
        decreases v@.len() - i,
    {
        if key_eq(&v[i], x) {
            assert(same_key(vs[i as int], x@));
            return true;
        }
        i += 1;
    }
    false
}

/// Drops every record whose key was already seen earlier in the list.
fn dedupe_ports_exec(v: Vec<PortInfo>) -> (r: Vec<PortInfo>)
    ensures
        r@.map_values(|p: PortInfo| p@) == dedup_ports(v@.map_values(|p: PortInfo| p@)),
{
    let ghost vw = |p: PortInfo| p@;
    let mut out: Vec<PortInfo> = Vec::new();
    proof {
        assert(v@.take(0).map_values(vw) =~= Seq::<PortRec>::empty());
        assert(out@.map_values(vw) =~= dedup_ports(v@.take(0).map_values(vw)));
    }
    let mut i: usize = 0;
    while i < v.len()
        invariant
            i <= v@.len(),
            vw == (|p: PortInfo| p@),
            out@.map_values(vw) == dedup_ports(v@.take(i as int).map_values(vw)),
        decreases v@.len() - i,
    {
        let ghost pre = v@.take(i as int).map_values(vw);
        proof {
            assert(v@.take(i + 1).map_values(vw) =~= pre.push(v@[i as int]@));
            assert(v@.take(i + 1).map_values(vw).drop_last() =~= pre);
            lemma_dedup_ports_keys(pre, v@[i as int]@);
        }
        let x = v[i].clone();
        proof {
            assert(x@ == v@[i as int]@);
        }
        if !seen_key(&out, &x) {
            out.push(x);
            proof {
                assert(out@.map_values(vw) =~= dedup_ports(v@.take(i + 1).map_values(vw)));
            }
        } else {
            proof {
                assert(out@.map_values(vw) =~= dedup_ports(v@.take(i + 1).map_values(vw)));
            }
        }
        i += 1;
    }
    proof {
        assert(v@.take(v@.len() as int) =~= v@);
    }
    out
}

/// Code-point-wise (equivalently, byte-wise) lexicographic order.
pub open spec fn lex_le(a: Seq<char>, b: Seq<char>) -> bool
    decreases a.len(),
{
    if a.len() == 0 {
        true
    } else if b.len() == 0 {
        false
    } else if (a[0] as u32) < (b[0] as u32) {
        true
    } else if (a[0] as u32) > (b[0] as u32) {
        false
    } else {
        lex_le(a.skip(1), b.skip(1))
    }
}

proof fn lemma_lex_le_total(a: Seq<char>, b: Seq<char>)
    ensures
        lex_le(a, b) || lex_le(b, a),
    decreases a.len(),
{
    if a.len() > 0 && b.len() > 0 && (a[0] as u32) == (b[0] as u32) {
        lemma_lex_le_total(a.skip(1), b.skip(1));
    }
}

proof fn lemma_lex_le_antisym(a: Seq<char>, b: Seq<char>)
    requires
        lex_le(a, b),
        lex_le(b, a),
    ensures
        a == b,
    decreases a.len(),
{
    broadcast use vstd::utf8::char_u32_cast;

    if a.len() > 0 && b.len() > 0 {
        assert((a[0] as u32) == (b[0] as u32));
        vstd::utf8::char_u32_cast(a[0], a[0] as u32);
        vstd::utf8::char_u32_cast(b[0], b[0] as u32);
        assert(a[0] == b[0]);
        lemma_lex_le_antisym(a.skip(1), b.skip(1));
        assert(a =~= seq![a[0]] + a.skip(1));
        assert(b =~= seq![b[0]] + b.skip(1));
    } else {
        assert(a.len() == 0 && b.len() == 0);
        assert(a =~= b);
    }
}

proof fn lemma_lex_le_trans(a: Seq<char>, b: Seq<char>, c: Seq<char>)
    requires
        lex_le(a, b),
        lex_le(b, c),
    ensures
        lex_le(a, c),
    decreases a.len(),
{
    if a.len() > 0 && b.len() > 0 && c.len() > 0 && (a[0] as u32) == (b[0] as u32) && (b[0] as u32)
        == (c[0] as u32) {
        lemma_lex_le_trans(a.skip(1), b.skip(1), c.skip(1));
    }
}

/// The table's order: ascending port, then protocol, then PID, an unknown
/// PID ordering lowest.
pub open spec fn port_le(a: PortRec, b: PortRec) -> bool {
    if a.port != b.port {
        a.port < b.port
    } else if a.protocol != b.protocol {
        lex_le(a.protocol, b.protocol)
    } else {
        (match a.pid {
            Some(p) => p,
            None => 0,
        }) <= (match b.pid {
            Some(p) => p,
            None => 0,
        })
    }
}

/// The order is total.
pub proof fn lemma_port_le_total(a: PortRec, b: PortRec)
    ensures
        port_le(a, b) || port_le(b, a),
{
    lemma_lex_le_total(a.protocol, b.protocol);
}

/// The order is transitive.
pub proof fn lemma_port_le_trans(a: PortRec, b: PortRec, c: PortRec)
    requires
        port_le(a, b),
        port_le(b, c),
    ensures
        port_le(a, c),
{
    if a.port == b.port && b.port == c.port {
        if a.protocol != b.protocol && b.protocol != c.protocol {
            lemma_lex_le_trans(a.protocol, b.protocol, c.protocol);
            if a.protocol == c.protocol {
                lemma_lex_le_total(a.protocol, b.protocol);
                lemma_lex_le_antisym(a.protocol, b.protocol);
            }
        }
    }
}

fn str_lex_le(a: &str, b: &str) -> (r: bool)
    ensures
        r == lex_le(a@, b@),
{
    let n = a.unicode_len();
    let m = b.unicode_len();
    let mut i: usize = 0;
    proof {
        assert(a@.skip(0) =~= a@);
        assert(b@.skip(0) =~= b@);
    }
    while i < n && i < m
        invariant
            i <= n,
            i <= m,
            n == a@.len(),
            m == b@.len(),
            lex_le(a@, b@) == lex_le(a@.skip(i as int), b@.skip(i as int)),
        decreases n - i,
    {
        proof {
            assert(a@.skip(i as int)[0] == a@[i as int]);
            assert(b@.skip(i as int)[0] == b@[i as int]);
            assert(a@.skip(i as int).skip(1) =~= a@.skip(i + 1));
            assert(b@.skip(i as int).skip(1) =~= b@.skip(i + 1));
        }
        let ca = a.get_char(i) as u32;
        let cb = b.get_char(i) as u32;
        if ca < cb {
            return true;
        }
        if ca > cb {
            return false;
        }
        i += 1;
    }
    i >= n
}

fn port_le_exec(a: &PortInfo, b: &PortInfo) -> (r: bool)
    ensures
        r == port_le(a@, b@),
{
    if a.port != b.port {
        a.port < b.port
    } else if !(a.protocol == b.protocol) {
        str_lex_le(a.protocol.as_str(), b.protocol.as_str())
    } else {
        let pa = match a.pid {
            Some(p) => p,
            None => 0,
        };
        let pb = match b.pid {
            Some(p) => p,
            None => 0,
        };
        pa <= pb
    }
}

/// Whether the view sequence is sorted by the table's order.
pub open spec fn sorted_ports(s: Seq<PortRec>) -> bool {
    forall|i: int, j: int| 0 <= i < j < s.len() ==> port_le(#[trigger] s[i], #[trigger] s[j])
}

/// Sorts the records by ascending port, protocol, then PID, keeping exactly
/// the same collection of records.
fn sort_ports(v: Vec<PortInfo>) -> (r: Vec<PortInfo>)
    ensures
        sorted_ports(r@.map_values(|p: PortInfo| p@)),
        r@.map_values(|p: PortInfo| p@).to_multiset() == v@.map_values(
            |p: PortInfo| p@,
        ).to_multiset(),
{
    broadcast use vstd::seq_lib::group_to_multiset_ensures;

    let ghost vw = |p: PortInfo| p@;
    let mut out: Vec<PortInfo> = Vec::new();
    proof {
        assert(v@.take(0).map_values(vw) =~= Seq::<PortRec>::empty());
        assert(out@.map_values(vw) =~= Seq::<PortRec>::empty());
        out@.map_values(vw).to_multiset_ensures();
        v@.take(0).map_values(vw).to_multiset_ensures();
        assert(out@.map_values(vw).to_multiset() =~= v@.take(0).map_values(vw).to_multiset());
    }
    let mut i: usize = 0;
    while i < v.len()
        invariant
            i <= v@.len(),
            vw == (|p: PortInfo| p@),
            sorted_ports(out@.map_values(vw)),
            out@.map_values(vw).to_multiset() == v@.take(i as int).map_values(vw).to_multiset(),
        decreases v@.len() - i,
    {
        let x = v[i].clone();
        proof {
            assert(x@ == v@[i as int]@);
            assert(v@.take(i + 1).map_values(vw) =~= v@.take(i as int).map_values(vw).push(x@));
            vstd::seq_lib::to_multiset_build(v@.take(i as int).map_values(vw), x@);
            assert(v@.take(i as int).map_values(vw).push(x@).to_multiset() == v@.take(
                i as int,
            ).map_values(vw).to_multiset().insert(x@));
        }
        let ghost old_out = out@;
        let pos = sorted_insert_pos(&out, &x);
        proof {
            let s = old_out.map_values(vw);
            assert(forall|k: int| 0 <= k < s.len() ==> #[trigger] s[k] == old_out[k]@);
            assert(forall|k: int| 0 <= k < pos ==> port_le(#[trigger] s[k], x@));
            assert(pos == s.len() || !port_le(s[pos as int], x@));
            lemma_sorted_insert(s, pos as int, x@);
        }
        out.insert(pos, x);
        proof {
            let s = old_out.map_values(vw);
            assert(out@.map_values(vw) =~= s.insert(pos as int, x@));
            vstd::seq_lib::to_multiset_insert(s, pos as int, x@);
            assert(out@.map_values(vw).to_multiset() == v@.take(i + 1).map_values(
                vw,
            ).to_multiset());
        }
        i += 1;
    }
    proof {
        assert(v@.take(v@.len() as int) =~= v@);
    }
    out
}

fn sorted_insert_pos(v: &Vec<PortInfo>, x: &PortInfo) -> (r: usize)
    ensures
        r <= v@.len(),
        forall|k: int| 0 <= k < r ==> port_le(#[trigger] v@[k]@, x@),
        r == v@.len() || !port_le(v@[r as int]@, x@),
{
    let mut i: usize = 0;
    while i < v.len()
        invariant
            i <= v@.len(),
            forall|k: int| 0 <= k < i ==> port_le(#[trigger] v@[k]@, x@),
        decreases v@.len() - i,
    {
        if !port_le_exec(&v[i], x) {
            return i;
        }
        i += 1;
    }
    i
}

proof fn lemma_sorted_insert(s: Seq<PortRec>, pos: int, x: PortRec)
    requires
        sorted_ports(s),
        0 <= pos <= s.len(),
        forall|k: int| 0 <= k < pos ==> port_le(#[trigger] s[k], x),
        pos == s.len() || !port_le(s[pos], x),
    ensures
        sorted_ports(s.insert(pos, x)),
{
    let t = s.insert(pos, x);
    s.insert_ensures(pos, x);
    assert forall|i: int, j: int| 0 <= i < j < t.len() implies port_le(t[i], t[j]) by {
        if i == pos {
            if j > pos {
                lemma_port_le_total(x, s[j - 1]);
                if port_le(s[j - 1], x) {
                    if pos < s.len() {
                        lemma_port_le_trans(s[pos], s[j - 1], x);
                        if j - 1 == pos {
                            assert(!port_le(s[pos], x));
                        }
                    }
                }
                if pos < s.len() && j - 1 > pos {
                    if port_le(s[j - 1], x) {
                        lemma_port_le_trans(s[pos], s[j - 1], x);
                    }
                }
            }
        } else if j == pos {
        } else {
        }
    }
}

/// The records parsed from the lines of a text, in order.
pub open spec fn parsed_ports(text: Seq<char>) -> Seq<PortRec> {
    lines_spec(text).filter_map(|l: Seq<char>| parse_line_spec(l))
}

/// Parses, deduplicates and sorts the whole captured output of the
/// socket-listing utility. A failed invocation or a nonzero exit becomes an
/// error; a successful empty listing is a valid empty table.
pub fn collect_ports(capture: Result<CommandCapture, String>) -> (r: Result<
    Vec<PortInfo>,
    ProcError,
>)
    ensures
        match r {
            Ok(ports) => capture matches Ok(c) && c.success && sorted_ports(
                ports@.map_values(|p: PortInfo| p@),
            ) && ports@.map_values(|p: PortInfo| p@).to_multiset() == dedup_ports(
                parsed_ports(c.stdout@),
            ).to_multiset(),
            Err(e) => match capture {
                Ok(c) => !c.success && e == ProcError::ToolStatus(c.code),
                Err(msg) => e == ProcError::ToolSpawn(msg),
            },
        },
{
    broadcast use vstd::seq_lib::group_to_multiset_ensures;

    let c = match capture {
        Ok(c) => c,
        Err(msg) => {
            return Err(ProcError::ToolSpawn(msg));
        },
    };
    if !c.success {
        return Err(ProcError::ToolStatus(c.code));
    }
    let lines = split_lines(c.stdout.as_str());
    let ghost lseq = lines_spec(c.stdout@);
    let ghost pl = |l: Seq<char>| parse_line_spec(l);
    let ghost vw = |p: PortInfo| p@;
    let mut parsed: Vec<PortInfo> = Vec::new();
    proof {
        assert(lseq.take(0) =~= Seq::<Seq<char>>::empty());
        assert(lseq.take(0).filter_map(pl) =~= Seq::<PortRec>::empty());
        assert(parsed@.map_values(vw) =~= lseq.take(0).filter_map(pl));
    }
    let mut i: usize = 0;
    while i < lines.len()
        invariant
            i <= lines@.len(),
            lines.deep_view() == lseq,
            pl == (|l: Seq<char>| parse_line_spec(l)),
            vw == (|p: PortInfo| p@),
            parsed@.map_values(vw) == lseq.take(i as int).filter_map(pl),
        decreases lines@.len() - i,
    {
        proof {
            assert(lseq.take(i + 1).drop_last() =~= lseq.take(i as int));
            assert(lseq.take(i + 1).last() == lines@[i as int]@);
            lseq.lemma_filter_map_take_succ(pl, i as int);
        }
        match parse_lsof_line(lines[i].as_str()) {
            Some(p) => {
                proof {
                    assert(parsed@.push(p).map_values(vw) =~= parsed@.map_values(vw).push(p@));
                }
                parsed.push(p);
                proof {
                    assert(parsed@.map_values(vw) =~= lseq.take(i + 1).filter_map(pl));
                }
            },
            None => {
                proof {
                    assert(parsed@.map_values(vw) =~= lseq.take(i + 1).filter_map(pl));
                }
            },
        }
        i += 1;
    }
    proof {
        assert(lseq.take(lines@.len() as int) =~= lseq);
        assert(parsed@.map_values(vw) == parsed_ports(c.stdout@));
    }
    let deduped = dedupe_ports_exec(parsed);
    let sorted = sort_ports(deduped);
    Ok(sorted)
}

/// No two records of a table whose records are exactly a deduplicated set
/// share a key: each key appears on at most one row.
pub proof fn lemma_ports_key_unique(out: Seq<PortRec>, s: Seq<PortRec>)
    requires
        out.to_multiset() == dedup_ports(s).to_multiset(),
    ensures
        forall|i: int, j: int| 0 <= i < j < out.len() ==> !same_key(
            #[trigger] out[i],
            #[trigger] out[j],
        ),
{
    broadcast use vstd::seq_lib::group_to_multiset_ensures;
    broadcast use vstd::multiset::group_multiset_axioms;

    let d = dedup_ports(s);
    lemma_dedup_ports_distinct(s);
    assert forall|i: int, j: int| 0 <= i < j < out.len() implies !same_key(out[i], out[j]) by {
        if same_key(out[i], out[j]) {
            if out[i] == out[j] {
                assert(d.no_duplicates()) by {
                    assert forall|p: int, q: int|
                        0 <= p < q < d.len() implies d[p] != d[q] by {
                        assert(!same_key(d[p], d[q]));
                    }
                }
                d.lemma_multiset_has_no_duplicates();
                assert(out.remove(i).to_multiset() =~= out.to_multiset().remove(out[i]));
                assert(out.remove(i).contains(out[i])) by {
                    assert(out.remove(i)[j - 1] == out[j]);
                }
                assert(out.remove(i).to_multiset().count(out[i]) > 0);
                assert(out.to_multiset().remove(out[i]).count(out[i]) == out.to_multiset().count(
                    out[i],
                ) - 1);
                assert(out.to_multiset().count(out[i]) >= 2);
                assert(d.to_multiset().count(out[i]) >= 2);
                assert(d.to_multiset().contains(out[i]));
            } else {
                assert(out.to_multiset().contains(out[i]));
                assert(out.to_multiset().contains(out[j]));
                assert(d.contains(out[i]));
                assert(d.contains(out[j]));
                let p = choose|p: int| 0 <= p < d.len() && d[p] == out[i];
                let q = choose|q: int| 0 <= q < d.len() && d[q] == out[j];
                assert(p != q);
                assert(!same_key(d[p], d[q]) && !same_key(d[q], d[p]));
            }
        }
    }
}

/// The open-file-handle reading from the secondary probe: the captured line
/// count minus the header, absent whenever the probe itself failed.
pub fn count_open_file_handles(capture: &Option<CommandCapture>) -> (r: Option<u32>)
    ensures
        match r {
            Some(h) => capture matches Some(c) && c.success && {
                let n = lines_spec(c.stdout@).len() as int;
                let wanted = if n == 0 {
                    0int
                } else {
                    n - 1
                };
                if wanted > u32::MAX {
                    h == u32::MAX
                } else {
                    h == wanted
                }
            },
            None => match capture {
                Some(c) => !c.success,
                None => true,
            },
        },
{
    match capture {
        None => None,
        Some(c) => {
            if !c.success {
                return None;
            }
            let lines = split_lines(c.stdout.as_str());
            let count = if lines.len() == 0 {
                0usize
            } else {
                lines.len() - 1
            };
            if count > u32::MAX as usize {
                Some(u32::MAX)
            } else {
                Some(count as u32)
            }
        },
    }
}

} // verus!
