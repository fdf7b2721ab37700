//! Decoding of the kernel's per-process TCP table.
//!
//! Each line after the header carries whitespace-separated columns: an index,
//! a local address:port, a remote address:port, and a status byte. The remote
//! address is eight hex digits in *reversed* byte order relative to dotted
//! notation, so the hex pairs are read from the last pair to the first. A
//! line whose address or status does not decode is an error for that line
//! only, never for the whole table.

use vstd::prelude::*;

use crate::address::Ipv4Address;
use crate::status::{status_of_code, TcpConnectionStatus};

verus! {

/// Whitespace as the table's column separator.
pub open spec fn is_ws(b: u8) -> bool {
    b == 32 || b == 9 || b == 10 || b == 11 || b == 12 || b == 13
}

/// The end (exclusive) of the run of non-whitespace bytes starting at `i`.
pub open spec fn token_end(s: Seq<u8>, i: int) -> int
    decreases s.len() - i,
{
    if 0 <= i < s.len() && !is_ws(s[i]) {
        token_end(s, i + 1)
    } else {
        i
    }
}

proof fn lemma_token_end_bounds(s: Seq<u8>, i: int)
    requires
        0 <= i <= s.len(),
    ensures
        i <= token_end(s, i) <= s.len(),
    decreases s.len() - i,
{
    if i < s.len() && !is_ws(s[i]) {
        lemma_token_end_bounds(s, i + 1);
    }
}

/// The whitespace-separated tokens of `s`, from position `i` on.
pub open spec fn tokens_from(s: Seq<u8>, i: int) -> Seq<Seq<u8>>
    decreases s.len() - i,
    via tokens_from_dec
{
    if !(0 <= i < s.len()) {
        Seq::empty()
    } else if is_ws(s[i]) {
        tokens_from(s, i + 1)
    } else {
        seq![s.subrange(i, token_end(s, i))] + tokens_from(s, token_end(s, i))
    }
}

#[via_fn]
proof fn tokens_from_dec(s: Seq<u8>, i: int) {
    if 0 <= i < s.len() && !is_ws(s[i]) {
        lemma_token_end_bounds(s, i + 1);
    }
}

/// The whitespace-separated tokens (columns) of one line.
pub open spec fn tokens_of(s: Seq<u8>) -> Seq<Seq<u8>> {
    tokens_from(s, 0)
}

/// Hex digits, either case.
pub open spec fn is_hex_digit(b: u8) -> bool {
    (48 <= b <= 57) || (65 <= b <= 70) || (97 <= b <= 102)
}

/// The value of one hex digit.
pub open spec fn hex_val(b: u8) -> int {
    if 48 <= b <= 57 {
        b - 48
    } else if 65 <= b <= 70 {
        b - 55
    } else if 97 <= b <= 102 {
        b - 87
    } else {
        0
    }
}

/// The address encoded by a remote-address column: eight hex digits whose
/// byte order is reversed relative to dotted notation, so the first dotted
/// octet comes from digits six and seven and the last from digits zero and
/// one. Anything after the eighth digit (the `:port` part) is ignored.
pub open spec fn addr_of_token(t: Seq<u8>) -> Option<Ipv4Address> {
    if t.len() >= 8 && (forall|j: int| 0 <= j < 8 ==> is_hex_digit(#[trigger] t[j])) {
        Some(
            Ipv4Address {
                o0: (hex_val(t[6]) * 16 + hex_val(t[7])) as u8,
                o1: (hex_val(t[4]) * 16 + hex_val(t[5])) as u8,
                o2: (hex_val(t[2]) * 16 + hex_val(t[3])) as u8,
                o3: (hex_val(t[0]) * 16 + hex_val(t[1])) as u8,
            },
        )
    } else {
        None
    }
}

/// The numeric value of a whole hex token, most significant digit first.
pub open spec fn hex_token_val(t: Seq<u8>) -> int
    decreases t.len(),
{
    if t.len() == 0 {
        0
    } else {
        hex_token_val(t.drop_last()) * 16 + hex_val(t.last())
    }
}

/// The status byte encoded by a status column: all hex digits, at least one,
/// and a value that fits in one byte.
pub open spec fn status_code_of_token(t: Seq<u8>) -> Option<u8> {
    if t.len() > 0 && (forall|j: int| 0 <= j < t.len() ==> is_hex_digit(#[trigger] t[j]))
        && hex_token_val(t) < 256 {
        Some(hex_token_val(t) as u8)
    } else {
        None
    }
}

/// One decoded table line: the remote address and its connection status.
#[derive(Clone, Copy, PartialEq, Eq, Structural, Debug)]
pub struct TcpConnectionInfo {
    pub remote_address: Ipv4Address,
    pub status: TcpConnectionStatus,
}

/// A line whose remote address or status column does not decode.
#[derive(Clone, Copy, PartialEq, Eq, Structural, Debug)]
pub struct ParseConnectionInfoError;

/// The record one line encodes: the third column is the remote address, the
/// fourth the status byte; fewer than four columns, a malformed address, a
/// malformed status, or a status outside the twelve known codes all make the
/// line undecodable.
pub open spec fn line_record(line: Seq<u8>) -> Option<TcpConnectionInfo> {
    let ts = tokens_of(line);
    if ts.len() < 4 {
        None
    } else {
        match addr_of_token(ts[2]) {
            Some(remote_address) => match status_code_of_token(ts[3]) {
                Some(code) => match status_of_code(code) {
                    Some(status) => Some(TcpConnectionInfo { remote_address, status }),
                    None => None,
                },
                None => None,
            },
            None => None,
        }
    }
}

fn is_ws_byte(b: u8) -> (r: bool)
    ensures
        r == is_ws(b),
{
    b == 32 || b == 9 || b == 10 || b == 11 || b == 12 || b == 13
}

fn hex_digit_value(b: u8) -> (r: Option<u8>)
    ensures
        match r {
            Some(v) => is_hex_digit(b) && v == hex_val(b),
            None => !is_hex_digit(b),
        },
{
    if 48 <= b && b <= 57 {
        Some(b - 48)
    } else if 65 <= b && b <= 70 {
        Some(b - 55)
    } else if 97 <= b && b <= 102 {
        Some(b - 87)
    } else {
        None
    }
}

/// Split one line into its whitespace-separated columns.
fn tokenize(line: &Vec<u8>) -> (r: Vec<Vec<u8>>)
    ensures
        r@.map_values(|t: Vec<u8>| t@) == tokens_of(line@),
{
    let ghost s = line@;
    let n = line.len();
    let mut toks: Vec<Vec<u8>> = Vec::new();
    let mut i: usize = 0;
    while i < n
        invariant
            i <= n == s.len(),
            line@ == s,
            tokens_of(s) == toks@.map_values(|t: Vec<u8>| t@) + tokens_from(s, i as int),
        decreases n - i,
    {
        if is_ws_byte(line[i]) {
            proof {
                assert(tokens_from(s, i as int) == tokens_from(s, i as int + 1));
            }
            i = i + 1;
        } else {
            let ghost start = i as int;
            let mut tok: Vec<u8> = Vec::new();
            while i < n && !is_ws_byte(line[i])
                invariant
                    0 <= start <= i <= n == s.len(),
                    line@ == s,
                    token_end(s, start) == token_end(s, i as int),
                    tok@ == s.subrange(start, i as int),
                decreases n - i,
            {
                proof {
                    assert(token_end(s, i as int) == token_end(s, i as int + 1));
                }
                tok.push(line[i]);
                proof {
                    assert(s.subrange(start, i as int).push(s[i as int]) =~= s.subrange(
                        start,
                        i as int + 1,
                    ));
                }
                i = i + 1;
            }
            proof {
                assert(token_end(s, i as int) == i as int);
                assert(tokens_from(s, start) == seq![s.subrange(start, i as int)] + tokens_from(
                    s,
                    i as int,
                ));
            }
            let ghost prev = toks@;
            toks.push(tok);
            proof {
                assert(toks@.map_values(|t: Vec<u8>| t@) =~= prev.map_values(|t: Vec<u8>| t@).push(
                    tok@,
                ));
                assert(tokens_of(s) =~= toks@.map_values(|t: Vec<u8>| t@) + tokens_from(
                    s,
                    i as int,
                ));
            }
        }
    }
    proof {
        assert(tokens_from(s, i as int) =~= Seq::<Seq<u8>>::empty());
        assert(toks@.map_values(|t: Vec<u8>| t@) =~= tokens_of(s));
    }
    toks
}

/// Decode a remote-address column, reading the hex pairs from the last pair
/// to the first.
fn parse_address_token(t: &Vec<u8>) -> (r: Option<Ipv4Address>)
    ensures
        r == addr_of_token(t@),
{
    if t.len() < 8 {
        return None;
    }
    let mut digits: [u8; 8] = [0; 8];
    let mut j: usize = 0;
    while j < 8
        invariant
            j <= 8,
            t@.len() >= 8,
            forall|m: int| 0 <= m < j ==> is_hex_digit(#[trigger] t@[m]),
            forall|m: int| 0 <= m < j ==> digits@[m] == hex_val(#[trigger] t@[m]),
        decreases 8 - j,
    {
        match hex_digit_value(t[j]) {
            Some(v) => {
                digits[j] = v;
            },
            None => {
                return None;
            },
        }
        j = j + 1;
    }
    let o0 = digits[6] * 16 + digits[7];
    let o1 = digits[4] * 16 + digits[5];
    let o2 = digits[2] * 16 + digits[3];
    let o3 = digits[0] * 16 + digits[1];
    Some(Ipv4Address { o0, o1, o2, o3 })
}

proof fn lemma_hex_token_val_nonneg(t: Seq<u8>)
    ensures
        hex_token_val(t) >= 0,
    decreases t.len(),
{
    if t.len() > 0 {
        lemma_hex_token_val_nonneg(t.drop_last());
    }
}

proof fn lemma_hex_token_prefix_bound(t: Seq<u8>, i: int)
    requires
        0 <= i <= t.len(),
    ensures
        hex_token_val(t.take(i)) <= hex_token_val(t),
    decreases t.len() - i,
{
    if i == t.len() {
        assert(t.take(i) =~= t);
    } else {
        lemma_hex_token_prefix_bound(t, i + 1);
        assert(t.take(i + 1).drop_last() =~= t.take(i));
        assert(t.take(i + 1).last() == t[i]);
        lemma_hex_token_val_nonneg(t.take(i));
        assert(hex_token_val(t.take(i + 1)) == hex_token_val(t.take(i)) * 16 + hex_val(t[i]));
        assert(hex_val(t[i]) >= 0);
        assert(hex_token_val(t.take(i)) * 16 >= hex_token_val(t.take(i)));
    }
}

/// Decode a status column as one hex byte.
fn parse_status_token(t: &Vec<u8>) -> (r: Option<u8>)
    ensures
        r == status_code_of_token(t@),
{
    let n = t.len();
    if n == 0 {
        return None;
    }
    let mut acc: u32 = 0;
    let mut i: usize = 0;
    while i < n
        invariant
            i <= n == t@.len(),
            forall|m: int| 0 <= m < i ==> is_hex_digit(#[trigger] t@[m]),
            acc == hex_token_val(t@.take(i as int)),
            acc < 256,
        decreases n - i,
    {
        let d = match hex_digit_value(t[i]) {
            Some(d) => d,
            None => {
                return None;
            },
        };
        proof {
            assert(t@.take(i as int + 1).drop_last() =~= t@.take(i as int));
            assert(t@.take(i as int + 1).last() == t@[i as int]);
        }
        acc = acc * 16 + d as u32;
        i = i + 1;
        if acc >= 256 {
            proof {
                lemma_hex_token_prefix_bound(t@, i as int);
            }
            return None;
        }
    }
    proof {
        assert(t@.take(n as int) =~= t@);
    }
    Some(acc as u8)
}

impl TcpConnectionInfo {
    pub fn remote_address(&self) -> (r: &Ipv4Address)
        ensures
            *r == self.remote_address,
    {
        &self.remote_address
    }

    pub fn status(&self) -> (r: &TcpConnectionStatus)
        ensures
            *r == self.status,
    {
        &self.status
    }

    /// Decode one table line; exactly the lines with at least four columns,
    /// a well-formed reversed-hex remote address, and a known status byte
    /// succeed.
    pub fn parse_line(line: &Vec<u8>) -> (r: Result<TcpConnectionInfo, ParseConnectionInfoError>)
        ensures
            match r {
                Ok(info) => line_record(line@) == Some(info),
                Err(_) => line_record(line@) is None,
            },
    {
        let toks = tokenize(line);
        let ghost ts = tokens_of(line@);
        if toks.len() < 4 {
            return Err(ParseConnectionInfoError);
        }
        assert(toks@[2]@ == ts[2] && toks@[3]@ == ts[3]);
        let remote_address = match parse_address_token(&toks[2]) {
            Some(a) => a,
            None => {
                return Err(ParseConnectionInfoError);
            },
        };
        let code = match parse_status_token(&toks[3]) {
            Some(c) => c,
            None => {
                return Err(ParseConnectionInfoError);
            },
        };
        let status = match TcpConnectionStatus::try_from(code) {
            Ok(st) => st,
            Err(_) => {
                return Err(ParseConnectionInfoError);
            },
        };
        Ok(TcpConnectionInfo { remote_address, status })
    }
}

/// The end (exclusive) of the line starting at `i`: the next newline or the
/// end of the text.
pub open spec fn line_end(t: Seq<u8>, i: int) -> int
    decreases t.len() - i,
{
    if 0 <= i < t.len() && t[i] != 10 {
        line_end(t, i + 1)
    } else {
        i
    }
}

proof fn lemma_line_end_bounds(t: Seq<u8>, i: int)
    requires
        0 <= i <= t.len(),
    ensures
        i <= line_end(t, i) <= t.len(),
    decreases t.len() - i,
{
    if i < t.len() && t[i] != 10 {
        lemma_line_end_bounds(t, i + 1);
    }
}

/// The line starting at `i`: up to the next newline, with one carriage
/// return stripped before a newline terminator.
pub open spec fn line_at(t: Seq<u8>, i: int) -> Seq<u8> {
    let e = line_end(t, i);
    let raw = t.subrange(i, e);
    if e < t.len() && raw.len() > 0 && raw.last() == 13 {
        raw.drop_last()
    } else {
        raw
    }
}

/// The lines of the text from position `i` on; a trailing newline ends the
/// last line rather than opening an empty one.
pub open spec fn lines_from(t: Seq<u8>, i: int) -> Seq<Seq<u8>>
    decreases t.len() - i + 1,
    via lines_from_dec
{
    if !(0 <= i < t.len()) {
        Seq::empty()
    } else {
        seq![line_at(t, i)] + lines_from(t, line_end(t, i) + 1)
    }
}

#[via_fn]
proof fn lines_from_dec(t: Seq<u8>, i: int) {
    if 0 <= i < t.len() {
        lemma_line_end_bounds(t, i);
    }
}

/// The lines of the raw table text.
pub open spec fn lines_of(t: Seq<u8>) -> Seq<Seq<u8>> {
    lines_from(t, 0)
}

/// The records of the given lines from position `i` on, skipping lines that
/// do not decode.
pub open spec fn records_from(ls: Seq<Seq<u8>>, i: int) -> Seq<TcpConnectionInfo>
    decreases ls.len() - i,
{
    if !(0 <= i < ls.len()) {
        Seq::empty()
    } else {
        match line_record(ls[i]) {
            Some(rec) => seq![rec] + records_from(ls, i + 1),
            None => records_from(ls, i + 1),
        }
    }
}

/// Every record the raw table text encodes, in order: the first line is the
/// table header and carries no record.
pub open spec fn table_records(text: Seq<u8>) -> Seq<TcpConnectionInfo> {
    records_from(lines_of(text), 1)
}

/// Consecutive equal records collapsed to one.
pub open spec fn dedup_from(rs: Seq<TcpConnectionInfo>, i: int) -> Seq<TcpConnectionInfo>
    decreases rs.len() - i,
{
    if !(0 <= i < rs.len()) {
        Seq::empty()
    } else if i > 0 && rs[i] == rs[i - 1] {
        dedup_from(rs, i + 1)
    } else {
        seq![rs[i]] + dedup_from(rs, i + 1)
    }
}

pub open spec fn dedup_seq(rs: Seq<TcpConnectionInfo>) -> Seq<TcpConnectionInfo> {
    dedup_from(rs, 0)
}

/// The remote addresses of the records, from `i` on, that sit in the
/// SYN-sent state: the pending destinations this system tracks.
pub open spec fn pending_from(rs: Seq<TcpConnectionInfo>, i: int) -> Seq<Ipv4Address>
    decreases rs.len() - i,
{
    if !(0 <= i < rs.len()) {
        Seq::empty()
    } else if rs[i].status == TcpConnectionStatus::SynSent {
        seq![rs[i].remote_address] + pending_from(rs, i + 1)
    } else {
        pending_from(rs, i + 1)
    }
}

/// The pending remote addresses a raw table text reports: its records, with
/// consecutive duplicates collapsed, filtered to the SYN-sent state.
pub open spec fn pending_of(text: Seq<u8>) -> Seq<Ipv4Address> {
    pending_from(dedup_seq(table_records(text)), 0)
}

/// Split the raw table text into lines.
fn split_lines(text: &Vec<u8>) -> (r: Vec<Vec<u8>>)
    ensures
        r@.map_values(|l: Vec<u8>| l@) == lines_of(text@),
{
    let ghost s = text@;
    let n = text.len();
    let mut out: Vec<Vec<u8>> = Vec::new();
    let mut i: usize = 0;
    while i < n
        invariant
            i <= n,
            n == s.len(),
            text@ == s,
            lines_of(s) == out@.map_values(|l: Vec<u8>| l@) + lines_from(s, i as int),
        decreases n - i,
    {
        let ghost start = i as int;
        let mut cur: Vec<u8> = Vec::new();
        while i < n && text[i] != 10
            invariant
                0 <= start <= i <= n == s.len(),
                text@ == s,
                line_end(s, start) == line_end(s, i as int),
                cur@ == s.subrange(start, i as int),
            decreases n - i,
        {
            proof {
                assert(line_end(s, i as int) == line_end(s, i as int + 1));
            }
            cur.push(text[i]);
            proof {
                assert(s.subrange(start, i as int).push(s[i as int]) =~= s.subrange(
                    start,
                    i as int + 1,
                ));
            }
            i = i + 1;
        }
        proof {
            assert(line_end(s, i as int) == i as int);
        }
        let ghost e = i as int;
        if i < n {
            // Terminated by a newline: strip one carriage return, if any.
            if cur.len() > 0 && cur[cur.len() - 1] == 13 {
                cur.pop();
            }
        }
        assert(cur@ == line_at(s, start));
        let ghost prev = out@;
        out.push(cur);
        proof {
            assert(out@.map_values(|l: Vec<u8>| l@) =~= prev.map_values(|l: Vec<u8>| l@).push(
                cur@,
            ));
            assert(lines_from(s, start) == seq![line_at(s, start)] + lines_from(s, e + 1));
            assert(lines_of(s) =~= out@.map_values(|l: Vec<u8>| l@) + lines_from(s, e + 1));
        }
        if i < n {
            // Step past the newline terminator.
            i = i + 1;
        } else {
            proof {
                assert(lines_from(s, e + 1) =~= lines_from(s, e));
            }
        }
    }
    proof {
        assert(lines_from(s, i as int) =~= Seq::<Seq<u8>>::empty());
        assert(out@.map_values(|l: Vec<u8>| l@) =~= lines_of(s));
    }
    out
}

/// Collapse consecutive equal records.
fn dedup_records(rs: &Vec<TcpConnectionInfo>) -> (r: Vec<TcpConnectionInfo>)
    ensures
        r@ == dedup_seq(rs@),
{
    let n = rs.len();
    let mut out: Vec<TcpConnectionInfo> = Vec::new();
    let mut i: usize = 0;
    while i < n
        invariant
            i <= n == rs@.len(),
            dedup_seq(rs@) == out@ + dedup_from(rs@, i as int),
        decreases n - i,
    {
        if i > 0 && rs[i] == rs[i - 1] {
            proof {
                assert(dedup_from(rs@, i as int) == dedup_from(rs@, i as int + 1));
            }
        } else {
            out.push(rs[i]);
            proof {
                assert(dedup_seq(rs@) =~= out@ + dedup_from(rs@, i as int + 1));
            }
        }
        i = i + 1;
    }
    proof {
        assert(dedup_from(rs@, i as int) =~= Seq::<TcpConnectionInfo>::empty());
        assert(out@ =~= dedup_seq(rs@));
    }
    out
}

/// Decode a whole raw table text: skip the header line, decode each line,
/// drop lines that do not decode, and collapse consecutive duplicates.
pub fn parse_table(text: &Vec<u8>) -> (r: Vec<TcpConnectionInfo>)
    ensures
        r@ == dedup_seq(table_records(text@)),
{
    let lines = split_lines(text);
    let ghost ls = lines_of(text@);
    let n = lines.len();
    let mut records: Vec<TcpConnectionInfo> = Vec::new();
    let mut i: usize = 1;
    while i < n
        invariant
            1 <= i <= n + 1,
            n == ls.len(),
            lines@.map_values(|l: Vec<u8>| l@) == ls,
            records_from(ls, 1) == records@ + records_from(ls, i as int),
        decreases n - i,
    {
        assert(lines@[i as int]@ == ls[i as int]);
        match TcpConnectionInfo::parse_line(&lines[i]) {
            Ok(rec) => {
                records.push(rec);
                proof {
                    assert(records_from(ls, 1) =~= records@ + records_from(ls, i as int + 1));
                }
            },
            Err(_) => {
                proof {
                    assert(records_from(ls, i as int) == records_from(ls, i as int + 1));
                }
            },
        }
        i = i + 1;
    }
    proof {
        assert(records_from(ls, i as int) =~= Seq::<TcpConnectionInfo>::empty());
        assert(records@ =~= table_records(text@));
    }
    dedup_records(&records)
}

/// The pending destinations a raw table text reports: the addresses of its
/// SYN-sent records, consecutive duplicates collapsed.
pub fn pending_addresses(text: &Vec<u8>) -> (r: Vec<Ipv4Address>)
    ensures
        r@ == pending_of(text@),
{
    let records = parse_table(text);
    let ghost rs = dedup_seq(table_records(text@));
    let n = records.len();
    let mut out: Vec<Ipv4Address> = Vec::new();
    let mut i: usize = 0;
    while i < n
        invariant
            i <= n == rs.len(),
            records@ == rs,
            pending_from(rs, 0) == out@ + pending_from(rs, i as int),
        decreases n - i,
    {
        let rec = records[i];
        if matches!(rec.status, TcpConnectionStatus::SynSent) {
            out.push(rec.remote_address);
            proof {
                assert(pending_from(rs, 0) =~= out@ + pending_from(rs, i as int + 1));
            }
        } else {
            proof {
                assert(pending_from(rs, i as int) == pending_from(rs, i as int + 1));
            }
        }
        i = i + 1;
    }
    proof {
        assert(pending_from(rs, i as int) =~= Seq::<Ipv4Address>::empty());
        assert(out@ =~= pending_of(text@));
    }
    out
}

} // verus!
