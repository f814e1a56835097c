//! The port table: parsing `lsof -FpctunP` output on Unix and `netstat -ano`
//! with `tasklist` on Windows, and attaching the parent chain of each process
//! from a `ps` or `wmic` listing.
use vstd::prelude::*;
use vstd::string::StringExecFns;
use vstd::seq_lib::seq_to_set_is_finite;
use vstd::set_lib::lemma_len_subset;
use std::collections::{HashMap, HashSet};
use crate::text::{
    chars_eq_str, ends_with, has_suffix, has_prefix, push_chars, split_words, words, starts_with,
    split_at_char, split_chars, strip_char, strip_chars, contains_text, find_text, push_str,
    chars_eq, chars_of, find_first, find_last, index_of_first, index_of_last, lemma_index_of_first,
    lines_of, parse_unsigned, parsed_unsigned, slice_chars, split_lines, string_of, trim_chars,
    trim_seq, decimal, lemma_decimal_value,
};

verus! {

/// `str::to_uppercase`: full Unicode upper-casing of a string.
pub uninterp spec fn unicode_uppercase(s: Seq<char>) -> Seq<char>;

/// `str::to_uppercase`. Its result is named by [`unicode_uppercase`]; the
/// Unicode case tables are not restated here.
#[verifier::external_body]
fn uppercase_text(s: &str) -> (r: String)
    ensures
        r@ == unicode_uppercase(s@),
{
    s.to_uppercase()
}

// ---------------------------------------------------------------------------
// Endpoints
// ---------------------------------------------------------------------------

/// A host and an optional port, as `lsof` or `netstat` print them.
#[derive(Debug)]
pub struct Endpoint {
    pub address: String,
    pub port: Option<u16>,
}

/// A port number as `str::parse::<u16>` reads it.
pub open spec fn parsed_port(s: Seq<char>) -> Option<u16> {
    match parsed_unsigned(s, 65535) {
        Some(x) => Some(x as u16),
        None => None,
    }
}

/// `[host]:port` form: starts with `[` and holds a `]`.
pub open spec fn is_bracketed(v: Seq<char>) -> bool {
    v.len() > 0 && v[0] == '[' && index_of_first(v, ']') is Some
}

/// The host between the brackets and the port after `]:`.
pub open spec fn bracketed_parts(v: Seq<char>) -> (Seq<char>, Option<u16>) {
    let e = index_of_first(v, ']')->0;
    let after = v.skip(e + 1);
    (
        v.subrange(1, e),
        if after.len() > 0 && after[0] == ':' {
            parsed_port(after.drop_first())
        } else {
            None
        },
    )
}

/// An `lsof` endpoint: `[v6]:port`, `host:port` split at the last colon (an
/// empty host reads `*`), or a bare host; surrounding whitespace ignored.
pub open spec fn lsof_endpoint(raw: Seq<char>) -> (Seq<char>, Option<u16>) {
    let v = trim_seq(raw);
    if is_bracketed(v) {
        bracketed_parts(v)
    } else {
        match index_of_last(v, ':') {
            Some(i) => {
                let host = v.take(i);
                (
                    trim_seq(
                        if host.len() == 0 {
                            seq!['*']
                        } else {
                            host
                        },
                    ),
                    parsed_port(v.skip(i + 1)),
                )
            },
            None => (v, None),
        }
    }
}

/// A `netstat` endpoint: like [`lsof_endpoint`] but the host is kept as it is.
pub open spec fn netstat_endpoint(raw: Seq<char>) -> (Seq<char>, Option<u16>) {
    let v = trim_seq(raw);
    if is_bracketed(v) {
        bracketed_parts(v)
    } else {
        match index_of_last(v, ':') {
            Some(i) => (v.take(i), parsed_port(v.skip(i + 1))),
            None => (v, None),
        }
    }
}

/// The view of an endpoint.
pub open spec fn endpoint_view(e: Endpoint) -> (Seq<char>, Option<u16>) {
    (e.address@, e.port)
}

fn parse_port(v: &Vec<char>) -> (r: Option<u16>)
    ensures
        r == parsed_port(v@),
{
    match parse_unsigned(v, 65535) {
        Some(x) => Some(x as u16),
        None => None,
    }
}

/// The endpoint of the trimmed text `v`, by the `lsof` rule or, with
/// `keep_host`, the `netstat` rule.
fn endpoint_of_trimmed(v: &Vec<char>, keep_host: bool) -> (r: Endpoint)
    ensures
        !keep_host ==> (r.address@, r.port) == ({
            let w = v@;
            if is_bracketed(w) {
                bracketed_parts(w)
            } else {
                match index_of_last(w, ':') {
                    Some(i) => {
                        let host = w.take(i);
                        (
                            trim_seq(
                                if host.len() == 0 {
                                    seq!['*']
                                } else {
                                    host
                                },
                            ),
                            parsed_port(w.skip(i + 1)),
                        )
                    },
                    None => (w, None),
                }
            }
        }),
        keep_host ==> (r.address@, r.port) == ({
            let w = v@;
            if is_bracketed(w) {
                bracketed_parts(w)
            } else {
                match index_of_last(w, ':') {
                    Some(i) => (w.take(i), parsed_port(w.skip(i + 1))),
                    None => (w, None),
                }
            }
        }),
{
    let n = v.len();
    if n > 0 && v[0] == '[' {
        match find_first(v, ']') {
            Some(e) => {
                proof {
                    lemma_index_of_first(v@, ']');
                }
                let host = slice_chars(v, 1, e);
                let after = slice_chars(v, e + 1, n);
                assert(after@ =~= v@.skip(e + 1));
                let port = if after.len() > 0 && after[0] == ':' {
                    let rest = slice_chars(&after, 1, after.len());
                    assert(rest@ =~= after@.drop_first());
                    parse_port(&rest)
                } else {
                    None
                };
                return Endpoint { address: string_of(&host), port };
            },
            None => {},
        }
    }
    match find_last(v, ':') {
        Some(i) => {
            proof {
                crate::text::lemma_index_of_last(v@, ':');
            }
            let host = slice_chars(v, 0, i);
            let rest = slice_chars(v, i + 1, n);
            assert(host@ =~= v@.take(i as int));
            assert(rest@ =~= v@.skip(i + 1));
            let port = parse_port(&rest);
            if keep_host {
                Endpoint { address: string_of(&host), port }
            } else {
                let h = if host.len() == 0 {
                    let mut star: Vec<char> = Vec::new();
                    star.push('*');
                    star
                } else {
                    host
                };
                let t = trim_chars(&h);
                Endpoint { address: string_of(&t), port }
            }
        },
        None => Endpoint { address: string_of(v), port: None },
    }
}

/// One endpoint of an `lsof` name field.
pub fn parse_single_endpoint(raw: &str) -> (r: Endpoint)
    ensures
        endpoint_view(r) == lsof_endpoint(raw@),
{
    let v = chars_of(raw);
    let t = trim_chars(&v);
    endpoint_of_trimmed(&t, false)
}

/// One endpoint of a `netstat` address column.
pub fn parse_windows_endpoint(value: &str) -> (r: Endpoint)
    ensures
        endpoint_view(r) == netstat_endpoint(value@),
{
    let v = chars_of(value);
    let t = trim_chars(&v);
    endpoint_of_trimmed(&t, true)
}

/// Index of the first `"->"` in `s`.
pub open spec fn first_arrow(s: Seq<char>) -> Option<int>
    decreases s.len(),
{
    if s.len() < 2 {
        None
    } else {
        match first_arrow(s.drop_last()) {
            Some(i) => Some(i),
            None => if s[s.len() - 2] == '-' && s.last() == '>' {
                Some(s.len() - 2)
            } else {
                None
            },
        }
    }
}

proof fn lemma_first_arrow(s: Seq<char>, i: int)
    requires
        0 <= i < s.len() - 1,
        s[i] == '-' && s[i + 1] == '>',
        forall|k: int| 0 <= k < i ==> !(s[k] == '-' && #[trigger] s[k + 1] == '>'),
    ensures
        first_arrow(s) == Some(i),
    decreases s.len(),
{
    if s.len() - 2 > i {
        assert forall|k: int| 0 <= k < i implies !(s.drop_last()[k] == '-' && #[trigger] s.drop_last()[k
            + 1] == '>') by {
            assert(s.drop_last()[k] == s[k] && s.drop_last()[k + 1] == s[k + 1]);
        }
        lemma_first_arrow(s.drop_last(), i);
    } else {
        lemma_no_arrow(s.drop_last());
    }
}

proof fn lemma_no_arrow(s: Seq<char>)
    requires
        forall|k: int| 0 <= k < s.len() - 1 ==> !(s[k] == '-' && #[trigger] s[k + 1] == '>'),
    ensures
        first_arrow(s) is None,
    decreases s.len(),
{
    if s.len() >= 2 {
        assert forall|k: int| 0 <= k < s.drop_last().len() - 1 implies !(s.drop_last()[k] == '-'
            && #[trigger] s.drop_last()[k + 1] == '>') by {
            assert(s.drop_last()[k] == s[k] && s.drop_last()[k + 1] == s[k + 1]);
        }
        lemma_no_arrow(s.drop_last());
        let k = s.len() - 2;
        assert(!(s[k] == '-' && s[k + 1] == '>'));
    }
}

fn find_arrow(v: &Vec<char>) -> (r: Option<usize>)
    ensures
        match r {
            Some(i) => first_arrow(v@) == Some(i as int) && i + 2 <= v@.len(),
            None => first_arrow(v@) is None,
        },
{
    let n = v.len();
    if n < 2 {
        proof {
            lemma_no_arrow(v@);
        }
        return None;
    }
    let mut i: usize = 0;
    while i < n - 1
        invariant
            n == v@.len(),
            n >= 2,
            forall|k: int| 0 <= k < i && k < n - 1 ==> !(v@[k] == '-' && #[trigger] v@[k + 1] == '>'),
        decreases n - i,
    {
        if v[i] == '-' && v[i + 1] == '>' {
            proof {
                lemma_first_arrow(v@, i as int);
            }
            return Some(i);
        }
        i = i + 1;
    }
    proof {
        lemma_no_arrow(v@);
    }
    None
}

/// The local and the remote endpoint of an `lsof` name field
/// (`local->remote`).
pub open spec fn endpoint_pair(input: Seq<char>) -> ((Seq<char>, Option<u16>), Option<(Seq<char>, Option<u16>)>) {
    match first_arrow(input) {
        Some(i) => (lsof_endpoint(input.take(i)), Some(lsof_endpoint(input.skip(i + 2)))),
        None => (lsof_endpoint(input), None),
    }
}

fn endpoints_of(v: &Vec<char>) -> (r: (Endpoint, Option<Endpoint>))
    ensures
        (endpoint_view(r.0), match r.1 {
            Some(e) => Some(endpoint_view(e)),
            None => None,
        }) == endpoint_pair(v@),
{
    let n = v.len();
    match find_arrow(v) {
        Some(i) => {
            let left = slice_chars(v, 0, i);
            let right = slice_chars(v, i + 2, n);
            assert(left@ =~= v@.take(i as int));
            assert(right@ =~= v@.skip(i + 2));
            let lt = trim_chars(&left);
            let rt = trim_chars(&right);
            (endpoint_of_trimmed(&lt, false), Some(endpoint_of_trimmed(&rt, false)))
        },
        None => {
            let t = trim_chars(v);
            (endpoint_of_trimmed(&t, false), None)
        },
    }
}

/// The endpoints of an `lsof` name field.
pub fn parse_endpoint(input: &str) -> (r: (Endpoint, Option<Endpoint>))
    ensures
        (endpoint_view(r.0), match r.1 {
            Some(e) => Some(endpoint_view(e)),
            None => None,
        }) == endpoint_pair(input@),
{
    let v = chars_of(input);
    endpoints_of(&v)
}

// ---------------------------------------------------------------------------
// The lsof table
// ---------------------------------------------------------------------------

/// One process of a port's parent chain.
#[derive(Debug)]
pub struct ProcessLink {
    pub pid: u32,
    pub process_name: Option<String>,
}

/// One open port and the process that holds it.
#[derive(Debug)]
pub struct PortUsage {
    pub protocol: String,
    pub local_address: String,
    pub local_port: Option<u16>,
    pub remote_address: Option<String>,
    pub remote_port: Option<u16>,
    pub pid: Option<u32>,
    pub process_name: Option<String>,
    pub parent_pid: Option<u32>,
    pub parent_process_name: Option<String>,
    pub ancestors: Vec<ProcessLink>,
}

/// The text of an optional string.
pub open spec fn opt_view(o: Option<String>) -> Option<Seq<char>> {
    match o {
        Some(s) => Some(s@),
        None => None,
    }
}

/// What a parsed row holds: pid, protocol, local host and port, remote host and
/// port, process name.
pub type PortRow = (Option<u32>, Seq<char>, Seq<char>, Option<u16>, Option<Seq<char>>, Option<u16>, Option<Seq<char>>);

/// The parsed part of a port entry.
pub open spec fn row_of(u: PortUsage) -> PortRow {
    (
        u.pid,
        u.protocol@,
        u.local_address@,
        u.local_port,
        opt_view(u.remote_address),
        u.remote_port,
        opt_view(u.process_name),
    )
}

/// `<str as Debug>::fmt`: the text in double quotes with its special
/// characters escaped.
pub uninterp spec fn debug_quoted(s: Seq<char>) -> Seq<char>;

/// The `Debug` text of a string (`format!("{:?}", s)`). Its result is named by
/// [`debug_quoted`]; the escaping rules are not restated.
#[verifier::external_body]
fn debug_text(s: &str) -> (r: String)
    ensures
        r@ == debug_quoted(s@),
{
    format!("{:?}", s)
}

/// The `Debug` text of an optional number: `Some(<n>)` or `None`.
pub open spec fn opt_number_text(o: Option<nat>) -> Seq<char> {
    match o {
        Some(n) => "Some("@ + decimal(n) + ")"@,
        None => "None"@,
    }
}

/// The identity under which two rows count as the same port: the text
/// `pid|protocol|local host|local port|remote host|remote port`, the pid and
/// ports written as `Debug` options, the remote host (empty when missing) as
/// a `Debug` string.
pub open spec fn row_key(r: PortRow) -> Seq<char> {
    opt_number_text(
        match r.0 {
            Some(p) => Some(p as nat),
            None => None,
        },
    ) + "|"@ + r.1 + "|"@ + r.2 + "|"@ + opt_number_text(
        match r.3 {
            Some(p) => Some(p as nat),
            None => None,
        },
    ) + "|"@ + debug_quoted(
        match r.4 {
            Some(a) => a,
            None => Seq::empty(),
        },
    ) + "|"@ + opt_number_text(
        match r.5 {
            Some(p) => Some(p as nat),
            None => None,
        },
    )
}

fn push_opt_number(out: &mut Vec<char>, o: Option<u64>)
    ensures
        final(out)@ == old(out)@ + opt_number_text(
            match o {
                Some(n) => Some(n as nat),
                None => None,
            },
        ),
{
    proof {
        reveal_strlit("Some(");
        reveal_strlit(")");
        reveal_strlit("None");
    }
    match o {
        Some(n) => {
            push_str(out, "Some(");
            crate::text::push_decimal(out, n);
            push_str(out, ")");
        },
        None => {
            push_str(out, "None");
        },
    }
    assert(final(out)@ =~= old(out)@ + opt_number_text(
        match o {
            Some(n) => Some(n as nat),
            None => None,
        },
    ));
}

/// The key text of a row (see [`row_key`]).
fn key_text(
    pid: Option<u32>,
    protocol: &String,
    local: &String,
    local_port: Option<u16>,
    remote: &Option<String>,
    remote_port: Option<u16>,
) -> (r: String)
    ensures
        r@ == row_key((pid, protocol@, local@, local_port, opt_view(*remote), remote_port, None)),
{
    proof {
        reveal_strlit("|");
    }
    let mut out: Vec<char> = Vec::new();
    push_opt_number(&mut out, match pid {
        Some(p) => Some(p as u64),
        None => None,
    });
    push_str(&mut out, "|");
    push_str(&mut out, protocol.as_str());
    push_str(&mut out, "|");
    push_str(&mut out, local.as_str());
    push_str(&mut out, "|");
    push_opt_number(&mut out, match local_port {
        Some(p) => Some(p as u64),
        None => None,
    });
    push_str(&mut out, "|");
    proof {
        reveal_strlit("");
        assert(""@ =~= Seq::<char>::empty());
    }
    let host = match remote {
        Some(a) => debug_text(a.as_str()),
        None => debug_text(""),
    };
    assert(host@ == debug_quoted(
        match opt_view(*remote) {
            Some(a) => a,
            None => Seq::empty(),
        },
    ));
    push_str(&mut out, host.as_str());
    push_str(&mut out, "|");
    push_opt_number(&mut out, match remote_port {
        Some(p) => Some(p as u64),
        None => None,
    });
    let r = string_of(&out);
    assert(r@ =~= row_key((pid, protocol@, local@, local_port, opt_view(*remote), remote_port, None)));
    r
}

/// Some row of `rows` has this key.
pub open spec fn has_key(rows: Seq<PortRow>, r: PortRow) -> bool {
    exists|i: int| 0 <= i < rows.len() && row_key(#[trigger] rows[i]) == row_key(r)
}

/// A parsed entry carries no process-tree information yet.
pub open spec fn without_tree(u: PortUsage) -> bool {
    u.parent_pid is None && u.parent_process_name is None && u.ancestors@.len() == 0
}

/// The fields that the `p`, `c` and `P` lines set: pid, command, protocol.
pub type LsofCursor = (Option<u32>, Option<Seq<char>>, Option<Seq<char>>);

/// The row that an `n` line with this name field makes.
pub open spec fn lsof_row(cur: LsofCursor, value: Seq<char>) -> PortRow {
    let (local, remote) = endpoint_pair(value);
    (
        cur.0,
        match cur.2 {
            Some(p) => p,
            None => "UNKNOWN"@,
        },
        local.0,
        local.1,
        match remote {
            Some(r) => Some(r.0),
            None => None,
        },
        match remote {
            Some(r) => r.1,
            None => None,
        },
        cur.1,
    )
}

/// One line of `lsof -F` output: `p` starts a process, `c` names it, `f`
/// starts a file, `P` gives its protocol, `n` its endpoints; a row is added
/// unless one with the same key exists.
pub open spec fn lsof_line(cur: LsofCursor, rows: Seq<PortRow>, line: Seq<char>) -> (LsofCursor, Seq<PortRow>) {
    if line.len() == 0 {
        (cur, rows)
    } else {
        let tag = line[0];
        let value = line.drop_first();
        if tag == 'p' {
            (
                (
                    match parsed_unsigned(value, u32::MAX as nat) {
                        Some(x) => Some(x as u32),
                        None => None,
                    },
                    None,
                    cur.2,
                ),
                rows,
            )
        } else if tag == 'c' {
            ((cur.0, Some(value), cur.2), rows)
        } else if tag == 'f' {
            ((cur.0, cur.1, None), rows)
        } else if tag == 'P' {
            ((cur.0, cur.1, Some(unicode_uppercase(value))), rows)
        } else if tag == 'n' {
            let row = lsof_row(cur, value);
            (
                cur,
                if has_key(rows, row) {
                    rows
                } else {
                    rows.push(row)
                },
            )
        } else {
            (cur, rows)
        }
    }
}

/// The cursor and rows after reading `lines` in order.
pub open spec fn lsof_scan(lines: Seq<Seq<char>>) -> (LsofCursor, Seq<PortRow>)
    decreases lines.len(),
{
    if lines.len() == 0 {
        ((None, None, None), Seq::empty())
    } else {
        let prev = lsof_scan(lines.drop_last());
        lsof_line(prev.0, prev.1, lines.last())
    }
}

/// Every non-empty line opens with an ASCII tag character.
pub open spec fn lines_have_ascii_tags(text: Seq<char>) -> bool {
    forall|k: int|
        0 <= k < lines_of(text).len() && #[trigger] lines_of(text)[k].len() > 0 ==> (lines_of(
            text,
        )[k][0] as u32) < 128
}

fn opt_string_clone(o: &Option<String>) -> (r: Option<String>)
    ensures
        opt_view(r) == opt_view(*o),
{
    match o {
        Some(s) => Some(s.clone()),
        None => None,
    }
}

fn same_key(
    u: &PortUsage,
    pid: Option<u32>,
    protocol: &String,
    local: &String,
    local_port: Option<u16>,
    remote: &Option<String>,
    remote_port: Option<u16>,
) -> (b: bool)
    ensures
        b == (row_key(row_of(*u)) == row_key(
            (pid, protocol@, local@, local_port, opt_view(*remote), remote_port, None),
        )),
{
    let a = key_text(u.pid, &u.protocol, &u.local_address, u.local_port, &u.remote_address, u.remote_port);
    let b = key_text(pid, protocol, local, local_port, remote, remote_port);
    a == b
}


/// Keys of `rows` are pairwise different.
pub open spec fn keys_distinct(rows: Seq<PortRow>) -> bool {
    forall|i: int, j: int| 0 <= i < j < rows.len() ==> row_key(rows[i]) != row_key(rows[j])
}

/// The `lsof` table never lists the same port twice.
pub proof fn lemma_lsof_keys_distinct(lines: Seq<Seq<char>>)
    ensures
        keys_distinct(lsof_scan(lines).1),
    decreases lines.len(),
{
    if lines.len() > 0 {
        lemma_lsof_keys_distinct(lines.drop_last());
        let prev = lsof_scan(lines.drop_last());
        let line = lines.last();
        if line.len() > 0 && line[0] == 'n' {
            let row = lsof_row(prev.0, line.drop_first());
            if !has_key(prev.1, row) {
                let rows = prev.1.push(row);
                assert forall|i: int, j: int| 0 <= i < j < rows.len() implies row_key(rows[i])
                    != row_key(rows[j]) by {
                    if j == rows.len() - 1 {
                        assert(rows[i] == prev.1[i]);
                        assert(row_key(prev.1[i]) != row_key(row));
                    }
                }
            }
        }
    }
}

/// The number of lines that open with the `n` tag.
pub open spec fn name_line_count(lines: Seq<Seq<char>>) -> nat
    decreases lines.len(),
{
    if lines.len() == 0 {
        0
    } else {
        name_line_count(lines.drop_last()) + if lines.last().len() > 0 && lines.last()[0] == 'n' {
            1nat
        } else {
            0nat
        }
    }
}

/// The `lsof` table has at most one row per `n` line, and reading further
/// lines only appends rows: the rows found in the first `i` lines stay first,
/// in the order their lines came.
pub proof fn lemma_lsof_rows_in_line_order(lines: Seq<Seq<char>>, i: int)
    requires
        0 <= i <= lines.len(),
    ensures
        lsof_scan(lines).1.len() <= name_line_count(lines),
        lsof_scan(lines.take(i)).1.len() <= lsof_scan(lines).1.len(),
        forall|k: int| 0 <= k < lsof_scan(lines.take(i)).1.len() ==> #[trigger] lsof_scan(lines).1[k]
            == lsof_scan(lines.take(i)).1[k],
    decreases lines.len(),
{
    if lines.len() == 0 {
        assert(lines.take(i) =~= lines);
    } else if i == lines.len() {
        assert(lines.take(i) =~= lines);
        lemma_lsof_rows_in_line_order(lines.drop_last(), 0);
    } else {
        lemma_lsof_rows_in_line_order(lines.drop_last(), i);
        assert(lines.drop_last().take(i) =~= lines.take(i));
    }
}

/// The ports listed in `lsof -nP -i -FpctunP` output:
/// one entry per distinct key, in the order first seen, none with a process
/// tree yet.
pub fn parse_lsof_output(stdout: &str) -> (r: Vec<PortUsage>)
    requires
        lines_have_ascii_tags(stdout@),
    ensures
        r@.map_values(|u: PortUsage| row_of(u)) == lsof_scan(lines_of(stdout@)).1,
        forall|k: int| 0 <= k < r@.len() ==> without_tree(#[trigger] r@[k]),
        keys_distinct(r@.map_values(|u: PortUsage| row_of(u))),
{
    proof {
        lemma_lsof_keys_distinct(lines_of(stdout@));
    }
    let text = chars_of(stdout);
    let lines = split_lines(&text);
    let ghost views = lines@.map_values(|l: Vec<char>| l@);
    let mut results: Vec<PortUsage> = Vec::new();
    let mut pid: Option<u32> = None;
    let mut process: Option<String> = None;
    let mut protocol: Option<String> = None;
    let mut i: usize = 0;
    while i < lines.len()
        invariant
            views == lines@.map_values(|l: Vec<char>| l@),
            views == lines_of(stdout@),
            lines_have_ascii_tags(stdout@),
            i <= lines@.len(),
            lsof_scan(views.take(i as int)) == ((pid, opt_view(process), opt_view(protocol)),
            results@.map_values(|u: PortUsage| row_of(u))),
            forall|k: int| 0 <= k < results@.len() ==> without_tree(#[trigger] results@[k]),
        decreases lines.len() - i,
    {
        let line = &lines[i];
        assert(views.take(i + 1).drop_last() =~= views.take(i as int));
        assert(views.take(i + 1).last() == line@);
        assert(views[i as int] == line@);
        if line.len() > 0 {
            let tag = line[0];
            let value = slice_chars(line, 1, line.len());
            assert(value@ =~= line@.drop_first());
            if tag == 'p' {
                pid = match parse_unsigned(&value, 4294967295u64) {
                    Some(x) => Some(x as u32),
                    None => None,
                };
                process = None;
            } else if tag == 'c' {
                process = Some(string_of(&value));
            } else if tag == 'f' {
                protocol = None;
            } else if tag == 'P' {
                let v = string_of(&value);
                protocol = Some(uppercase_text(v.as_str()));
            } else if tag == 'n' {
                let proto = match &protocol {
                    Some(p) => p.clone(),
                    None => String::from_str("UNKNOWN"),
                };
                let (local, remote) = endpoints_of(&value);
                let remote_address = match &remote {
                    Some(e) => Some(e.address.clone()),
                    None => None,
                };
                let remote_port = match &remote {
                    Some(e) => e.port,
                    None => None,
                };
                let ghost row = lsof_row((pid, opt_view(process), opt_view(protocol)), value@);
                let ghost rows = results@.map_values(|u: PortUsage| row_of(u));
                let mut seen = false;
                let mut k: usize = 0;
                while k < results.len()
                    invariant
                        k <= results@.len(),
                        rows == results@.map_values(|u: PortUsage| row_of(u)),
                        row_key(row) == row_key(
                            (pid, proto@, local.address@, local.port, opt_view(remote_address), remote_port, None),
                        ),
                        seen <==> exists|m: int| 0 <= m < k && row_key(#[trigger] rows[m]) == row_key(row),
                    decreases results.len() - k,
                {
                    if same_key(
                        &results[k],
                        pid,
                        &proto,
                        &local.address,
                        local.port,
                        &remote_address,
                        remote_port,
                    ) {
                        seen = true;
                    }
                    assert(rows[k as int] == row_of(results@[k as int]));
                    k = k + 1;
                }
                if !seen {
                    let ghost before = results@;
                    results.push(
                        PortUsage {
                            protocol: proto,
                            local_address: local.address,
                            local_port: local.port,
                            remote_address,
                            remote_port,
                            pid,
                            process_name: opt_string_clone(&process),
                            parent_pid: None,
                            parent_process_name: None,
                            ancestors: Vec::new(),
                        },
                    );
                    assert(results@.map_values(|u: PortUsage| row_of(u)) =~= before.map_values(
                        |u: PortUsage| row_of(u),
                    ).push(row));
                }
            }
        }
        i = i + 1;
    }
    assert(views.take(lines@.len() as int) =~= views);
    results
}


// ---------------------------------------------------------------------------
// Process tree
// ---------------------------------------------------------------------------

/// Words joined with single spaces.
pub open spec fn spaced(ws: Seq<Seq<char>>) -> Seq<char>
    decreases ws.len(),
{
    if ws.len() == 0 {
        Seq::empty()
    } else if ws.len() == 1 {
        ws[0]
    } else {
        spaced(ws.drop_last()) + seq![' '] + ws.last()
    }
}

/// One line of `ps -eo pid=,ppid=,comm=`: pid, parent (absent when 0 or not a
/// number) and command (`(unknown)` when missing); `None` for a line with fewer
/// than two words or a pid that is not a number.
pub open spec fn ps_record(line: Seq<char>) -> Option<(u32, Option<u32>, Seq<char>)> {
    let w = words(line);
    if w.len() < 2 {
        None
    } else {
        match parsed_unsigned(w[0], u32::MAX as nat) {
            None => None,
            Some(pid) => {
                let ppid: nat = match parsed_unsigned(w[1], u32::MAX as nat) {
                    Some(x) => x,
                    None => 0,
                };
                let rest = spaced(w.skip(2));
                Some(
                    (
                        pid as u32,
                        if ppid == 0 {
                            None
                        } else {
                            Some(ppid as u32)
                        },
                        if rest.len() == 0 {
                            "(unknown)"@
                        } else {
                            rest
                        },
                    ),
                )
            },
        }
    }
}

/// One line of `wmic process get ProcessId,ParentProcessId,Name /FORMAT:CSV`,
/// read as the second field the parent, the third the pid and the fourth the
/// name, each trimmed: `None` for a blank line, the `Node,` header, a line
/// with fewer than four fields or a pid that is not a number. A parent of 0 or
/// not a number is no parent.
pub open spec fn wmic_record(line: Seq<char>) -> Option<(u32, Option<u32>, Seq<char>)> {
    let t = trim_seq(line);
    if t.len() == 0 || has_prefix(t, "Node,"@) {
        None
    } else {
        let f = split_at_char(t, ',');
        if f.len() < 4 {
            None
        } else {
            match parsed_unsigned(trim_seq(f[2]), u32::MAX as nat) {
                None => None,
                Some(pid) => Some(
                    (
                        pid as u32,
                        match parsed_unsigned(trim_seq(f[1]), u32::MAX as nat) {
                            Some(x) => if x == 0 {
                                None
                            } else {
                                Some(x as u32)
                            },
                            None => None,
                        },
                        trim_seq(f[3]),
                    ),
                ),
            }
        }
    }
}

/// One line of the process listing: `wmic` on Windows, `ps` elsewhere.
pub open spec fn process_record(windows: bool, line: Seq<char>) -> Option<(u32, Option<u32>, Seq<char>)> {
    if windows {
        wmic_record(line)
    } else {
        ps_record(line)
    }
}

/// The process table of a process listing: pid to parent and command, a later
/// line for the same pid replacing an earlier one.
pub open spec fn process_table(windows: bool, lines: Seq<Seq<char>>) -> Map<u32, (Option<u32>, Seq<char>)>
    decreases lines.len(),
{
    if lines.len() == 0 {
        Map::empty()
    } else {
        let t = process_table(windows, lines.drop_last());
        match process_record(windows, lines.last()) {
            Some(rec) => t.insert(rec.0, (rec.1, rec.2)),
            None => t,
        }
    }
}

/// `launchd`, by name or by path, after trimming.
pub open spec fn is_launchd(name: Seq<char>) -> bool {
    let t = trim_seq(name);
    t == "launchd"@ || has_suffix(t, "/launchd"@)
}

/// A pid at which the walk up the tree ends: 0 or 1 under `ps`, 0 (idle) or 4
/// (`System`) under Windows.
pub open spec fn is_root_pid(windows: bool, p: u32) -> bool {
    if windows {
        p == 0 || p == 4
    } else {
        p <= 1
    }
}

/// A process whose name ends the walk: `launchd` under `ps`; none on Windows.
pub open spec fn ends_walk(windows: bool, name: Seq<char>) -> bool {
    !windows && is_launchd(name)
}

/// A parent whose name is not reported: `launchd` under `ps`, `System` on
/// Windows.
pub open spec fn hides_parent(windows: bool, name: Seq<char>) -> bool {
    if windows {
        trim_seq(name) == "System"@
    } else {
        is_launchd(name)
    }
}

/// The walk up the parent chain stops at `next`: nothing left, a root pid, a
/// pid seen before, a pid not in the table, or a name that ends the walk.
pub open spec fn walk_stops(
    windows: bool,
    t: Map<u32, (Option<u32>, Seq<char>)>,
    next: Option<u32>,
    chain: Seq<u32>,
) -> bool {
    match next {
        None => true,
        Some(p) => is_root_pid(windows, p) || chain.contains(p) || !t.contains_key(p) || ends_walk(
            windows,
            t[p].1,
        ),
    }
}

/// `chain` is the walk up from `start`: each pid the parent of the previous
/// one, each in the table, no root pid, no name that ends the walk, none
/// repeated, and the walk stops right after the last.
pub open spec fn is_ancestor_chain(
    windows: bool,
    t: Map<u32, (Option<u32>, Seq<char>)>,
    start: Option<u32>,
    chain: Seq<u32>,
) -> bool {
    &&& forall|k: int|
        0 <= k < chain.len() ==> t.contains_key(#[trigger] chain[k]) && !is_root_pid(
            windows,
            chain[k],
        ) && !ends_walk(windows, t[chain[k]].1)
    &&& chain.no_duplicates()
    &&& chain.len() > 0 ==> start == Some(chain[0])
    &&& forall|k: int| 0 <= k < chain.len() - 1 ==> t[#[trigger] chain[k]].0 == Some(chain[k + 1])
    &&& walk_stops(
        windows,
        t,
        if chain.len() == 0 {
            start
        } else {
            t[chain.last()].0
        },
        chain,
    )
}

/// What attaching the tree does to one port of the table `t`.
pub open spec fn tree_attached(
    windows: bool,
    t: Map<u32, (Option<u32>, Seq<char>)>,
    u: PortUsage,
    v: PortUsage,
) -> bool {
    &&& row_of(v) == row_of(u)
    &&& match u.pid {
        Some(p) => if t.contains_key(p) {
            let parent = t[p].0;
            &&& v.parent_pid == parent
            &&& opt_view(v.parent_process_name) == (match parent {
                Some(pp) => if t.contains_key(pp) && !hides_parent(windows, t[pp].1) {
                    Some(trim_seq(t[pp].1))
                } else {
                    opt_view(u.parent_process_name)
                },
                None => opt_view(u.parent_process_name),
            })
            &&& is_ancestor_chain(windows, t, parent, v.ancestors@.reverse().map_values(|l: ProcessLink| l.pid))
            &&& forall|i: int|
                0 <= i < v.ancestors@.len() ==> opt_view(#[trigger] v.ancestors@[i].process_name)
                    == Some(trim_seq(t[v.ancestors@[i].pid].1))
        } else {
            v == u
        },
        None => v == u,
    }
}

/// The exec table holds what the spec table does.
pub open spec fn table_matches(m: Map<u32, (Option<u32>, String)>, t: Map<u32, (Option<u32>, Seq<char>)>) -> bool {
    &&& forall|k: u32| #[trigger] m.contains_key(k) <==> t.contains_key(k)
    &&& forall|k: u32| #[trigger] m.contains_key(k) ==> m[k].0 == t[k].0 && m[k].1@ == t[k].1
}

fn join_spaced(ws: &Vec<Vec<char>>, from: usize) -> (r: Vec<char>)
    requires
        from <= ws@.len(),
    ensures
        r@ == spaced(ws@.map_values(|w: Vec<char>| w@).skip(from as int)),
{
    let ghost views = ws@.map_values(|w: Vec<char>| w@).skip(from as int);
    let mut r: Vec<char> = Vec::new();
    let mut k = from;
    while k < ws.len()
        invariant
            from <= k <= ws@.len(),
            views == ws@.map_values(|w: Vec<char>| w@).skip(from as int),
            r@ == spaced(views.take(k - from)),
        decreases ws.len() - k,
    {
        if k > from {
            r.push(' ');
        }
        push_chars(&mut r, &ws[k]);
        proof {
            let t = views.take(k - from + 1);
            assert(t.drop_last() =~= views.take(k - from));
            assert(t.last() == ws@[k as int]@);
            if k == from {
                assert(views.take(0).len() == 0);
            }
        }
        assert(r@ =~= spaced(views.take(k - from + 1)));
        k = k + 1;
    }
    assert(views.take(ws@.len() - from) =~= views);
    r
}

/// The record of one `wmic` line (see [`wmic_record`]).
fn parse_wmic_line(line: &Vec<char>) -> (r: Option<(u32, Option<u32>, String)>)
    ensures
        match wmic_record(line@) {
            Some(rec) => r matches Some(x) && x.0 == rec.0 && x.1 == rec.1 && x.2@ == rec.2,
            None => r is None,
        },
{
    let t = trim_chars(line);
    if t.len() == 0 || starts_with(&t, "Node,") {
        return None;
    }
    let f = split_chars(&t, ',');
    if f.len() < 4 {
        return None;
    }
    let ghost fv = split_at_char(t@, ',');
    assert(f@[1]@ == fv[1] && f@[2]@ == fv[2] && f@[3]@ == fv[3]);
    let pid = match parse_unsigned(&trim_chars(&f[2]), 4294967295u64) {
        Some(x) => x as u32,
        None => return None,
    };
    let parent = match parse_unsigned(&trim_chars(&f[1]), 4294967295u64) {
        Some(x) => if x == 0 {
            None
        } else {
            Some(x as u32)
        },
        None => None,
    };
    let name = trim_chars(&f[3]);
    Some((pid, parent, string_of(&name)))
}

/// The record of one `ps` line (see [`ps_record`]).
fn parse_ps_line(line: &Vec<char>) -> (r: Option<(u32, Option<u32>, String)>)
    ensures
        match ps_record(line@) {
            Some(rec) => r matches Some(x) && x.0 == rec.0 && x.1 == rec.1 && x.2@ == rec.2,
            None => r is None,
        },
{
    let w = split_words(line);
    if w.len() < 2 {
        return None;
    }
    assert(w@[0]@ == words(line@)[0] && w@[1]@ == words(line@)[1]);
    let pid = match parse_unsigned(&w[0], 4294967295u64) {
        Some(x) => x as u32,
        None => return None,
    };
    let ppid: u32 = match parse_unsigned(&w[1], 4294967295u64) {
        Some(x) => x as u32,
        None => 0,
    };
    let rest = join_spaced(&w, 2);
    let name = if rest.len() == 0 {
        String::from_str("(unknown)")
    } else {
        string_of(&rest)
    };
    let parent = if ppid == 0 {
        None
    } else {
        Some(ppid)
    };
    Some((pid, parent, name))
}

/// `launchd` by name or path, after trimming.
fn launchd_name(name: &String) -> (b: bool)
    ensures
        b == is_launchd(name@),
{
    let v = chars_of(name.as_str());
    let t = trim_chars(&v);
    chars_eq_str(&t, "launchd") || ends_with(&t, "/launchd")
}

fn root_pid(windows: bool, p: u32) -> (b: bool)
    ensures
        b == is_root_pid(windows, p),
{
    if windows {
        p == 0 || p == 4
    } else {
        p <= 1
    }
}

fn name_ends_walk(windows: bool, name: &String) -> (b: bool)
    ensures
        b == ends_walk(windows, name@),
{
    !windows && launchd_name(name)
}

fn name_hidden(windows: bool, name: &String) -> (b: bool)
    ensures
        b == hides_parent(windows, name@),
{
    if windows {
        let v = chars_of(name.as_str());
        let t = trim_chars(&v);
        chars_eq_str(&t, "System")
    } else {
        launchd_name(name)
    }
}

fn trimmed_string(name: &String) -> (r: String)
    ensures
        r@ == trim_seq(name@),
{
    let v = chars_of(name.as_str());
    let t = trim_chars(&v);
    string_of(&t)
}

proof fn lemma_chain_room(chain: Seq<u32>, dom: Set<u32>)
    requires
        chain.no_duplicates(),
        dom.finite(),
        forall|k: int| 0 <= k < chain.len() ==> dom.contains(#[trigger] chain[k]),
    ensures
        chain.len() <= dom.len(),
{
    broadcast use seq_to_set_is_finite;

    chain.unique_seq_to_set();
    assert(chain.to_set().subset_of(dom));
    lemma_len_subset(chain.to_set(), dom);
}

/// The parent chain of a process, root first: walks up from `start` as
/// [`is_ancestor_chain`] describes.
fn ancestor_links(
    windows: bool,
    m: &HashMap<u32, (Option<u32>, String)>,
    start: Option<u32>,
    Ghost(t): Ghost<Map<u32, (Option<u32>, Seq<char>)>>,
) -> (r: Vec<ProcessLink>)
    requires
        table_matches(m@, t),
    ensures
        is_ancestor_chain(windows, t, start, r@.reverse().map_values(|l: ProcessLink| l.pid)),
        forall|i: int|
            0 <= i < r@.len() ==> opt_view(#[trigger] r@[i].process_name) == Some(
                trim_seq(t[r@[i].pid].1),
            ),
{
    broadcast use vstd::std_specs::hash::group_hash_axioms;

    let mut links: Vec<ProcessLink> = Vec::new();
    let ghost mut chain: Seq<u32> = Seq::empty();
    let mut visited: HashSet<u32> = HashSet::new();
    let mut current = start;
    let mut done = false;
    proof {
        assert(m@.dom().finite());
    }
    while !done
        invariant
            table_matches(m@, t),
            m@.dom().finite(),
            forall|k: int|
                0 <= k < chain.len() ==> t.contains_key(#[trigger] chain[k]) && !is_root_pid(
                    windows,
                    chain[k],
                ) && !ends_walk(windows, t[chain[k]].1),
            chain.no_duplicates(),
            chain.len() > 0 ==> start == Some(chain[0]),
            forall|k: int| 0 <= k < chain.len() - 1 ==> t[#[trigger] chain[k]].0 == Some(chain[k + 1]),
            current == (if chain.len() == 0 {
                start
            } else {
                t[chain.last()].0
            }),
            forall|p: u32| #[trigger] visited@.contains(p) <==> chain.contains(p),
            done ==> walk_stops(windows, t, current, chain),
            links@.len() == chain.len(),
            forall|i: int| 0 <= i < chain.len() ==> (#[trigger] links@[i]).pid == chain[i],
            forall|i: int|
                0 <= i < chain.len() ==> opt_view(#[trigger] links@[i].process_name) == Some(
                    trim_seq(t[chain[i]].1),
                ),
            chain.len() <= m@.dom().len(),
        decreases (m@.dom().len() - chain.len()) * 2 + (if done { 0int } else { 1int }),
    {
        match current {
            None => {
                done = true;
            },
            Some(cur) => {
                if root_pid(windows, cur) || visited.contains(&cur) {
                    done = true;
                } else {
                    match m.get(&cur) {
                        None => {
                            done = true;
                        },
                        Some(entry) => {
                            if name_ends_walk(windows, &entry.1) {
                                done = true;
                            } else {
                                let name = trimmed_string(&entry.1);
                                let ghost old_chain = chain;
                                links.push(ProcessLink { pid: cur, process_name: Some(name) });
                                visited.insert(cur);
                                proof {
                                    chain = chain.push(cur);
                                    assert forall|p: u32| #[trigger] visited@.contains(p) <==> chain.contains(p) by {
                                        if p == cur {
                                            assert(chain[chain.len() - 1] == cur);
                                        }
                                        if old_chain.contains(p) {
                                            let k = choose|k: int| 0 <= k < old_chain.len() && old_chain[k] == p;
                                            assert(chain[k] == p);
                                        }
                                        if chain.contains(p) {
                                            let k = choose|k: int| 0 <= k < chain.len() && chain[k] == p;
                                            if k < old_chain.len() {
                                                assert(old_chain[k] == p);
                                            }
                                        }
                                    }
                                    assert forall|a: int, b: int| 0 <= a < chain.len() && 0 <= b < chain.len() && a != b implies chain[a] != chain[b] by {
                                        if a == old_chain.len() {
                                            assert(old_chain.contains(chain[b]) || b == a);
                                        } else if b == old_chain.len() {
                                            assert(old_chain.contains(chain[a]));
                                        }
                                    }
                                    lemma_chain_room(chain, m@.dom());
                                }
                                current = entry.0;
                                let stop_now = match entry.0 {
                                    Some(pp) => root_pid(windows, pp),
                                    None => false,
                                };
                                if stop_now {
                                    done = true;
                                }
                            }
                        },
                    }
                }
            },
        }
    }
    let ghost walked = links@;
    let mut r: Vec<ProcessLink> = Vec::new();
    while links.len() > 0
        invariant
            links@ == walked.take(links@.len() as int),
            links@.len() <= walked.len(),
            r@.len() == walked.len() - links@.len(),
            forall|i: int| 0 <= i < r@.len() ==> #[trigger] r@[i] == walked[walked.len() - 1 - i],
        decreases links@.len(),
    {
        match links.pop() {
            Some(l) => {
                r.push(l);
            },
            None => {},
        }
    }
    proof {
        assert(r@ =~= walked.reverse());
        assert(r@.reverse() =~= walked);
        assert(walked.map_values(|l: ProcessLink| l.pid) =~= chain);
    }
    r
}

/// The process table of a `ps -eo pid=,ppid=,comm=` listing (see
/// [`process_table`]).
fn build_process_table(windows: bool, text: &Vec<char>) -> (m: HashMap<u32, (Option<u32>, String)>)
    ensures
        table_matches(m@, process_table(windows, lines_of(text@))),
{
    let lines = split_lines(text);
    let ghost views = lines@.map_values(|l: Vec<char>| l@);
    let mut m: HashMap<u32, (Option<u32>, String)> = HashMap::new();
    let mut i: usize = 0;
    while i < lines.len()
        invariant
            views == lines@.map_values(|l: Vec<char>| l@),
            views == lines_of(text@),
            i <= lines@.len(),
            table_matches(m@, process_table(windows, views.take(i as int))),
        decreases lines.len() - i,
    {
        let ghost before = process_table(windows, views.take(i as int));
        assert(views.take(i + 1).drop_last() =~= views.take(i as int));
        assert(views.take(i + 1).last() == lines@[i as int]@);
        let rec_opt = if windows {
            parse_wmic_line(&lines[i])
        } else {
            parse_ps_line(&lines[i])
        };
        match rec_opt {
            Some(rec) => {
                let ghost after = process_table(windows, views.take(i + 1));
                let ghost prior = m@;
                assert(after == before.insert(rec.0, (rec.1, rec.2@)));
                m.insert(rec.0, (rec.1, rec.2));
                assert forall|k: u32| #[trigger] m@.contains_key(k) implies m@[k].0 == after[k].0
                    && m@[k].1@ == after[k].1 by {
                    if k != rec.0 {
                        assert(m@[k] == prior[k]);
                    }
                }
            },
            None => {},
        }
        i = i + 1;
    }
    assert(views.take(lines@.len() as int) =~= views);
    m
}

/// One port with its parent and parent chain from the table (see
/// [`tree_attached`]).
fn attach_one(
    windows: bool,
    u: &PortUsage,
    m: &HashMap<u32, (Option<u32>, String)>,
    Ghost(t): Ghost<Map<u32, (Option<u32>, Seq<char>)>>,
) -> (r: Option<PortUsage>)
    requires
        table_matches(m@, t),
    ensures
        match r {
            Some(v) => tree_attached(windows, t, *u, v),
            None => tree_attached(windows, t, *u, *u),
        },
{
    let pid = match u.pid {
        Some(p) => p,
        None => return None,
    };
    let entry = match m.get(&pid) {
        Some(e) => e,
        None => return None,
    };
    let parent = entry.0;
    let mut parent_name = opt_string_clone(&u.parent_process_name);
    match parent {
        Some(pp) => match m.get(&pp) {
            Some(pe) => {
                if !name_hidden(windows, &pe.1) {
                    parent_name = Some(trimmed_string(&pe.1));
                }
            },
            None => {},
        },
        None => {},
    }
    let ancestors = ancestor_links(windows, m, parent, Ghost(t));
    Some(PortUsage {
        protocol: u.protocol.clone(),
        local_address: u.local_address.clone(),
        local_port: u.local_port,
        remote_address: opt_string_clone(&u.remote_address),
        remote_port: u.remote_port,
        pid: u.pid,
        process_name: opt_string_clone(&u.process_name),
        parent_pid: parent,
        parent_process_name: parent_name,
        ancestors,
    })
}

/// Attaches the tree of the table `m` (which holds `t`) to every port.
fn attach_tree(
    windows: bool,
    ports: &mut Vec<PortUsage>,
    m: &HashMap<u32, (Option<u32>, String)>,
    Ghost(t): Ghost<Map<u32, (Option<u32>, Seq<char>)>>,
)
    requires
        table_matches(m@, t),
    ensures
        all_attached(windows, t, old(ports)@, final(ports)@),
{
    let ghost start = ports@;
    let mut i: usize = 0;
    while i < ports.len()
        invariant
            table_matches(m@, t),
            ports@.len() == start.len(),
            i <= ports@.len(),
            forall|k: int| 0 <= k < i ==> tree_attached(windows, t, #[trigger] start[k], ports@[k]),
            forall|k: int| i <= k < ports@.len() ==> #[trigger] ports@[k] == start[k],
        decreases ports.len() - i,
    {
        match attach_one(windows, &ports[i], m, Ghost(t)) {
            Some(v) => {
                ports.set(i, v);
            },
            None => {},
        }
        i = i + 1;
    }
    assert forall|k: int| 0 <= k < ports@.len() implies #[trigger] tree_attached(
        windows,
        t,
        start[k],
        ports@[k],
    ) by {}
}

/// Every port of `after` is the port of `before` at the same place with its
/// process tree attached from the table `t`.
pub open spec fn all_attached(
    windows: bool,
    t: Map<u32, (Option<u32>, Seq<char>)>,
    before: Seq<PortUsage>,
    after: Seq<PortUsage>,
) -> bool {
    &&& before.len() == after.len()
    &&& forall|k: int| 0 <= k < after.len() ==> #[trigger] tree_attached(windows, t, before[k], after[k])
}

/// Attaches to each port its parent process and the chain of ancestors, root
/// first, read from the output of `ps -eo pid=,ppid=,comm=`. Ports whose
/// process is not listed stay as they are.
pub fn attach_process_tree_unix(ports: &mut Vec<PortUsage>, ps_output: &str)
    ensures
        all_attached(false, process_table(false, lines_of(ps_output@)), old(ports)@, final(ports)@),
{
    let text = chars_of(ps_output);
    let m = build_process_table(false, &text);
    attach_tree(false, ports, &m, Ghost(process_table(false, lines_of(ps_output@))));
}

/// The port table of the machine from the output of `lsof -nP -i -FpctunP`
/// and, when `ps` ran, of `ps -eo pid=,ppid=,comm=`: the
/// parsed rows, each with its process tree attached when the `ps` listing is
/// there.
pub fn collect_ports(lsof_output: &str, ps_output: Option<&str>) -> (r: Vec<PortUsage>)
    requires
        lines_have_ascii_tags(lsof_output@),
    ensures
        r@.map_values(|u: PortUsage| row_of(u)) == lsof_scan(lines_of(lsof_output@)).1,
        keys_distinct(r@.map_values(|u: PortUsage| row_of(u))),
        match ps_output {
            None => forall|k: int| 0 <= k < r@.len() ==> without_tree(#[trigger] r@[k]),
            Some(ps) => exists|parsed: Seq<PortUsage>| #[trigger] all_attached(false, process_table(false, lines_of(ps@)), parsed, r@)
                && forall|k: int| 0 <= k < parsed.len() ==> without_tree(#[trigger] parsed[k]),
        },
{
    let mut ports = parse_lsof_output(lsof_output);
    let ghost parsed = ports@;
    match ps_output {
        None => {},
        Some(ps) => {
            attach_process_tree_unix(&mut ports, ps);
            proof {
                let t = process_table(false, lines_of(ps@));
                assert forall|k: int| 0 <= k < ports@.len() implies row_of(#[trigger] ports@[k]) == row_of(parsed[k]) by {
                    assert(tree_attached(false, t, parsed[k], ports@[k]));
                }
                assert(ports@.map_values(|u: PortUsage| row_of(u)) =~= parsed.map_values(|u: PortUsage| row_of(u)));
                assert(all_attached(false, t, parsed, ports@));
            }
        },
    }
    ports
}

// ---------------------------------------------------------------------------
// Windows: netstat, tasklist and wmic
// ---------------------------------------------------------------------------

/// One line of `tasklist /fo csv /nh`: the image name and the pid, each
/// without its quotes; `None` for a line with fewer than two fields or a pid
/// that is not a number.
pub open spec fn tasklist_record(line: Seq<char>) -> Option<(u32, Seq<char>)> {
    let f = split_at_char(line, ',');
    if f.len() > 1 {
        match parsed_unsigned(strip_char(f[1], '"'), u32::MAX as nat) {
            Some(pid) => Some((pid as u32, strip_char(f[0], '"'))),
            None => None,
        }
    } else {
        None
    }
}

/// The pid-to-name table of a `tasklist` listing, a later line for the same
/// pid replacing an earlier one.
pub open spec fn tasklist_table(lines: Seq<Seq<char>>) -> Map<u32, Seq<char>>
    decreases lines.len(),
{
    if lines.len() == 0 {
        Map::empty()
    } else {
        let t = tasklist_table(lines.drop_last());
        match tasklist_record(lines.last()) {
            Some(rec) => t.insert(rec.0, rec.1),
            None => t,
        }
    }
}

fn parse_tasklist_line(line: &Vec<char>) -> (r: Option<(u32, String)>)
    ensures
        match tasklist_record(line@) {
            Some(rec) => r matches Some(x) && x.0 == rec.0 && x.1@ == rec.1,
            None => r is None,
        },
{
    let f = split_chars(line, ',');
    if f.len() > 1 {
        assert(f@[0]@ == split_at_char(line@, ',')[0]);
        assert(f@[1]@ == split_at_char(line@, ',')[1]);
        let pid_text = strip_chars(&f[1], '"');
        match parse_unsigned(&pid_text, 4294967295u64) {
            Some(pid) => {
                let name = strip_chars(&f[0], '"');
                Some((pid as u32, string_of(&name)))
            },
            None => None,
        }
    } else {
        None
    }
}

fn build_tasklist_table(text: &Vec<char>) -> (m: HashMap<u32, String>)
    ensures
        forall|k: u32| #[trigger] m@.contains_key(k) <==> tasklist_table(lines_of(text@)).contains_key(k),
        forall|k: u32| #[trigger] m@.contains_key(k) ==> m@[k]@ == tasklist_table(lines_of(text@))[k],
{
    let lines = split_lines(text);
    let ghost views = lines@.map_values(|l: Vec<char>| l@);
    let mut m: HashMap<u32, String> = HashMap::new();
    let mut i: usize = 0;
    while i < lines.len()
        invariant
            views == lines@.map_values(|l: Vec<char>| l@),
            views == lines_of(text@),
            i <= lines@.len(),
            forall|k: u32| #[trigger] m@.contains_key(k) <==> tasklist_table(views.take(i as int)).contains_key(k),
            forall|k: u32| #[trigger] m@.contains_key(k) ==> m@[k]@ == tasklist_table(views.take(i as int))[k],
        decreases lines.len() - i,
    {
        let ghost before = tasklist_table(views.take(i as int));
        assert(views.take(i + 1).drop_last() =~= views.take(i as int));
        assert(views.take(i + 1).last() == lines@[i as int]@);
        match parse_tasklist_line(&lines[i]) {
            Some(rec) => {
                let ghost prior = m@;
                m.insert(rec.0, rec.1);
                assert forall|k: u32| #[trigger] m@.contains_key(k) implies m@[k]@ == tasklist_table(views.take(i + 1))[k] by {
                    if k != rec.0 {
                        assert(m@[k] == prior[k]);
                    }
                }
            },
            None => {},
        }
        i = i + 1;
    }
    assert(views.take(lines@.len() as int) =~= views);
    m
}

/// The remote host of a `netstat` row: none when empty or `*`.
pub open spec fn netstat_remote(host: Seq<char>) -> Option<Seq<char>> {
    if host.len() == 0 || host == "*"@ {
        None
    } else {
        Some(host)
    }
}

/// The row that one line of `netstat -a -n -o` makes, with names from the
/// `tasklist` table: `None` for a line with fewer than four words. The pid is
/// the fifth word, or the last where there are more or fewer.
pub open spec fn netstat_row(names: Map<u32, Seq<char>>, line: Seq<char>) -> Option<PortRow> {
    let w = words(line);
    if w.len() < 4 {
        None
    } else {
        let pid_word = if w.len() == 5 {
            w[4]
        } else {
            w.last()
        };
        let pid: Option<u32> = match parsed_unsigned(pid_word, u32::MAX as nat) {
            Some(x) => Some(x as u32),
            None => None,
        };
        let local = netstat_endpoint(w[1]);
        let remote = netstat_endpoint(w[2]);
        Some(
            (
                pid,
                unicode_uppercase(w[0]),
                local.0,
                local.1,
                netstat_remote(remote.0),
                remote.1,
                match pid {
                    Some(p) => if names.contains_key(p) {
                        Some(names[p])
                    } else {
                        None
                    },
                    None => None,
                },
            ),
        )
    }
}

/// The rows of the `netstat` lines read in order, a row added unless one with
/// the same key is there.
pub open spec fn netstat_scan(names: Map<u32, Seq<char>>, lines: Seq<Seq<char>>) -> Seq<PortRow>
    decreases lines.len(),
{
    if lines.len() == 0 {
        Seq::empty()
    } else {
        let rows = netstat_scan(names, lines.drop_last());
        match netstat_row(names, lines.last()) {
            Some(row) => if has_key(rows, row) {
                rows
            } else {
                rows.push(row)
            },
            None => rows,
        }
    }
}

/// The `netstat` table never lists the same port twice.
pub proof fn lemma_netstat_keys_distinct(names: Map<u32, Seq<char>>, lines: Seq<Seq<char>>)
    ensures
        keys_distinct(netstat_scan(names, lines)),
    decreases lines.len(),
{
    if lines.len() > 0 {
        lemma_netstat_keys_distinct(names, lines.drop_last());
        let prev = netstat_scan(names, lines.drop_last());
        match netstat_row(names, lines.last()) {
            Some(row) => {
                if !has_key(prev, row) {
                    let rows = prev.push(row);
                    assert forall|i: int, j: int| 0 <= i < j < rows.len() implies row_key(rows[i])
                        != row_key(rows[j]) by {
                        if j == rows.len() - 1 {
                            assert(rows[i] == prev[i]);
                            assert(row_key(prev[i]) != row_key(row));
                        }
                    }
                }
            },
            None => {},
        }
    }
}

/// The lines of a `netstat` listing after its four header lines.
pub open spec fn netstat_body(text: Seq<char>) -> Seq<Seq<char>> {
    let l = lines_of(text);
    if l.len() <= 4 {
        Seq::empty()
    } else {
        l.skip(4)
    }
}

fn netstat_entry(
    names: &HashMap<u32, String>,
    line: &Vec<char>,
    Ghost(n): Ghost<Map<u32, Seq<char>>>,
) -> (r: Option<PortUsage>)
    requires
        forall|k: u32| #[trigger] names@.contains_key(k) <==> n.contains_key(k),
        forall|k: u32| #[trigger] names@.contains_key(k) ==> names@[k]@ == n[k],
    ensures
        match netstat_row(n, line@) {
            Some(row) => r matches Some(u) && row_of(u) == row && without_tree(u),
            None => r is None,
        },
{
    let w = split_words(line);
    if w.len() < 4 {
        return None;
    }
    let ghost ws = words(line@);
    assert(w@[0]@ == ws[0] && w@[1]@ == ws[1] && w@[2]@ == ws[2]);
    let pid_word = if w.len() == 5 {
        &w[4]
    } else {
        &w[w.len() - 1]
    };
    assert(pid_word@ == (if ws.len() == 5 { ws[4] } else { ws.last() }));
    let pid: Option<u32> = match parse_unsigned(pid_word, 4294967295u64) {
        Some(x) => Some(x as u32),
        None => None,
    };
    let proto = string_of(&w[0]);
    let protocol = uppercase_text(proto.as_str());
    let local = endpoint_of_trimmed(&trim_chars(&w[1]), true);
    let remote = endpoint_of_trimmed(&trim_chars(&w[2]), true);
    let rh = chars_of(remote.address.as_str());
    let remote_address = if rh.len() == 0 || chars_eq_str(&rh, "*") {
        None
    } else {
        Some(remote.address)
    };
    let process_name = match pid {
        Some(p) => match names.get(&p) {
            Some(name) => Some(name.clone()),
            None => None,
        },
        None => None,
    };
    Some(
        PortUsage {
            protocol,
            local_address: local.address,
            local_port: local.port,
            remote_address,
            remote_port: remote.port,
            pid,
            process_name,
            parent_pid: None,
            parent_process_name: None,
            ancestors: Vec::new(),
        },
    )
}
/// Attaches to each port its parent process and the chain of ancestors, root
/// first, read from the output of `wmic process get
/// ProcessId,ParentProcessId,Name /FORMAT:CSV`.
/// Ports whose process is not listed stay as they are.
pub fn attach_process_tree_windows(ports: &mut Vec<PortUsage>, wmic_output: &str)
    ensures
        all_attached(true, process_table(true, lines_of(wmic_output@)), old(ports)@, final(ports)@),
{
    let text = chars_of(wmic_output);
    let m = build_process_table(true, &text);
    attach_tree(true, ports, &m, Ghost(process_table(true, lines_of(wmic_output@))));
}

/// The port table of a Windows machine from the output of `netstat -a -n -o`,
/// of `tasklist /fo csv /nh` when it ran (no process names otherwise) and of
/// `wmic` when it ran: one entry per distinct key
/// in the order first seen, each with its process tree attached when the
/// `wmic` listing is there.
pub fn collect_ports_windows(
    netstat_output: &str,
    tasklist_output: Option<&str>,
    wmic_output: Option<&str>,
) -> (r: Vec<PortUsage>)
    ensures
        ({
            let names = match tasklist_output {
                Some(t) => tasklist_table(lines_of(t@)),
                None => Map::empty(),
            };
            r@.map_values(|u: PortUsage| row_of(u)) == netstat_scan(names, netstat_body(netstat_output@))
        }),
        keys_distinct(r@.map_values(|u: PortUsage| row_of(u))),
        match wmic_output {
            None => forall|k: int| 0 <= k < r@.len() ==> without_tree(#[trigger] r@[k]),
            Some(w) => exists|parsed: Seq<PortUsage>| #[trigger] all_attached(true, process_table(true, lines_of(w@)), parsed, r@)
                && forall|k: int| 0 <= k < parsed.len() ==> without_tree(#[trigger] parsed[k]),
        },
{
    let names = match tasklist_output {
        Some(t) => build_tasklist_table(&chars_of(t)),
        None => HashMap::new(),
    };
    let ghost n = match tasklist_output {
        Some(t) => tasklist_table(lines_of(t@)),
        None => Map::<u32, Seq<char>>::empty(),
    };
    proof {
        if tasklist_output is None {
            assert(names@ == Map::<u32, String>::empty());
        }
        lemma_netstat_keys_distinct(n, netstat_body(netstat_output@));
    }
    let text = chars_of(netstat_output);
    let lines = split_lines(&text);
    let ghost views = lines@.map_values(|l: Vec<char>| l@);
    let ghost body = netstat_body(netstat_output@);
    assert(body =~= (if views.len() <= 4 {
        Seq::<Seq<char>>::empty()
    } else {
        views.skip(4)
    }));
    let mut results: Vec<PortUsage> = Vec::new();
    let mut i: usize = if lines.len() <= 4 {
        lines.len()
    } else {
        4
    };
    let start = i;
    while i < lines.len()
        invariant
            views == lines@.map_values(|l: Vec<char>| l@),
            views == lines_of(netstat_output@),
            body == (if views.len() <= 4 {
                Seq::<Seq<char>>::empty()
            } else {
                views.skip(4)
            }),
            start <= i <= lines@.len(),
            start == (if views.len() <= 4 {
                views.len()
            } else {
                4
            }),
            forall|k: u32| #[trigger] names@.contains_key(k) <==> n.contains_key(k),
            forall|k: u32| #[trigger] names@.contains_key(k) ==> names@[k]@ == n[k],
            netstat_scan(n, views.subrange(start as int, i as int)) == results@.map_values(
                |u: PortUsage| row_of(u),
            ),
            forall|k: int| 0 <= k < results@.len() ==> without_tree(#[trigger] results@[k]),
        decreases lines.len() - i,
    {
        assert(views.subrange(start as int, i + 1).drop_last() =~= views.subrange(start as int, i as int));
        assert(views.subrange(start as int, i + 1).last() == lines@[i as int]@);
        match netstat_entry(&names, &lines[i], Ghost(n)) {
            Some(u) => {
                let ghost row = row_of(u);
                let ghost rows = results@.map_values(|x: PortUsage| row_of(x));
                let mut seen = false;
                let mut k: usize = 0;
                while k < results.len()
                    invariant
                        k <= results@.len(),
                        rows == results@.map_values(|x: PortUsage| row_of(x)),
                        row == row_of(u),
                        seen <==> exists|m: int| 0 <= m < k && row_key(#[trigger] rows[m]) == row_key(row),
                    decreases results.len() - k,
                {
                    if same_key(
                        &results[k],
                        u.pid,
                        &u.protocol,
                        &u.local_address,
                        u.local_port,
                        &u.remote_address,
                        u.remote_port,
                    ) {
                        seen = true;
                    }
                    assert(rows[k as int] == row_of(results@[k as int]));
                    k = k + 1;
                }
                if !seen {
                    let ghost before = results@;
                    results.push(u);
                    assert(results@.map_values(|x: PortUsage| row_of(x)) =~= before.map_values(
                        |x: PortUsage| row_of(x),
                    ).push(row));
                }
            },
            None => {},
        }
        i = i + 1;
    }
    assert(views.subrange(start as int, lines@.len() as int) =~= body);
    let ghost parsed = results@;
    match wmic_output {
        None => {},
        Some(w) => {
            attach_process_tree_windows(&mut results, w);
            proof {
                let t = process_table(true, lines_of(w@));
                assert forall|k: int| 0 <= k < results@.len() implies row_of(#[trigger] results@[k]) == row_of(parsed[k]) by {
                    assert(tree_attached(true, t, parsed[k], results@[k]));
                }
                assert(results@.map_values(|x: PortUsage| row_of(x)) =~= parsed.map_values(|x: PortUsage| row_of(x)));
                assert(all_attached(true, t, parsed, results@));
            }
        },
    }
    results
}

// ---------------------------------------------------------------------------
// Ending a process
// ---------------------------------------------------------------------------

/// The pid that `kill_port_process` refuses: 0, with the error `Invalid PID`.
pub fn check_kill_pid(pid: u32) -> (r: Result<(), String>)
    ensures
        r is Ok <==> pid != 0,
        r matches Err(e) ==> e@ == "Invalid PID"@,
{
    if pid == 0 {
        Err(String::from_str("Invalid PID"))
    } else {
        Ok(())
    }
}

/// The error output by which the tool says the process was already gone.
pub open spec fn gone_marker(windows: bool) -> Seq<char> {
    if windows {
        "not found"@
    } else {
        "No such process"@
    }
}

/// The tool that ends a process: `taskkill` on Windows, `kill` elsewhere.
pub open spec fn kill_tool(windows: bool) -> Seq<char> {
    if windows {
        "taskkill"@
    } else {
        "kill"@
    }
}

/// What a finished run of `kill <pid>` (on Windows `taskkill /PID <pid> /T
/// /F`) means for `kill_port_process`: success, or error output that says the
/// process was already gone, is no error;
/// otherwise the error names the tool and carries the trimmed error output.
pub fn kill_outcome(windows: bool, success: bool, stderr: &str) -> (r: Result<(), String>)
    ensures
        r is Ok <==> (success || contains_text(stderr@, gone_marker(windows))),
        r matches Err(e) ==> e@ == kill_tool(windows) + " failed: "@ + trim_seq(stderr@),
{
    if success {
        return Ok(());
    }
    let text = chars_of(stderr);
    let marker = if windows {
        chars_of("not found")
    } else {
        chars_of("No such process")
    };
    if find_text(&text, &marker) {
        return Ok(());
    }
    let mut out: Vec<char> = Vec::new();
    if windows {
        push_str(&mut out, "taskkill");
    } else {
        push_str(&mut out, "kill");
    }
    push_str(&mut out, " failed: ");
    let t = trim_chars(&text);
    push_chars(&mut out, &t);
    Err(string_of(&out))
}

/// The text of an optional number holds no `'|'`, and different options have
/// different texts.
proof fn lemma_opt_number_text(a: Option<nat>, b: Option<nat>)
    ensures
        forall|i: int| 0 <= i < opt_number_text(a).len() ==> opt_number_text(a)[i] != '|',
        opt_number_text(a) == opt_number_text(b) ==> a == b,
{
    reveal_strlit("Some(");
    reveal_strlit(")");
    reveal_strlit("None");
    match a {
        Some(m) => lemma_decimal_value(m),
        None => {},
    }
    match b {
        Some(n) => lemma_decimal_value(n),
        None => {},
    }
    let ta = opt_number_text(a);
    let tb = opt_number_text(b);
    assert forall|i: int| 0 <= i < ta.len() implies ta[i] != '|' by {
        match a {
            Some(m) => {
                if 5 <= i < ta.len() - 1 {
                    assert(ta[i] == decimal(m)[i - 5]);
                }
            },
            None => {},
        }
    }
    if ta == tb {
        match (a, b) {
            (Some(m), Some(n)) => {
                assert(decimal(m) =~= ta.subrange(5, ta.len() - 1));
                assert(decimal(n) =~= tb.subrange(5, tb.len() - 1));
            },
            (Some(m), None) => {
                assert(ta[0] == 'S');
                assert(tb[0] == 'N');
            },
            (None, Some(n)) => {
                assert(ta[0] == 'N');
                assert(tb[0] == 'S');
            },
            (None, None) => {},
        }
    }
}

/// `s` holds no `'|'`.
pub open spec fn no_bar(s: Seq<char>) -> bool {
    forall|i: int| 0 <= i < s.len() ==> s[i] != '|'
}

/// Two texts that each hold, at the same place `o`, a field without `'|'`
/// followed by `'|'` hold the same field there.
proof fn lemma_same_field(s: Seq<char>, o: int, x1: Seq<char>, x2: Seq<char>)
    requires
        0 <= o,
        no_bar(x1),
        no_bar(x2),
        o + x1.len() < s.len(),
        o + x2.len() < s.len(),
        s.subrange(o, o + x1.len()) == x1,
        s.subrange(o, o + x2.len()) == x2,
        s[o + x1.len()] == '|',
        s[o + x2.len()] == '|',
    ensures
        x1 == x2,
{
    if x1.len() < x2.len() {
        assert(s.subrange(o, o + x2.len())[x1.len() as int] == x2[x1.len() as int]);
    } else if x2.len() < x1.len() {
        assert(s.subrange(o, o + x1.len())[x2.len() as int] == x1[x2.len() as int]);
    }
}

/// Joining at `'|'` is undone at the last `'|'` when the tail holds none.
proof fn lemma_split_last_bar(y1: Seq<char>, x1: Seq<char>, y2: Seq<char>, x2: Seq<char>)
    requires
        no_bar(x1),
        no_bar(x2),
        y1 + seq!['|'] + x1 == y2 + seq!['|'] + x2,
    ensures
        x1 == x2,
{
    let s1 = y1 + seq!['|'] + x1;
    let s2 = y2 + seq!['|'] + x2;
    let n = s1.len();
    assert(s1[n - 1 - x1.len()] == '|');
    assert(s2[n - 1 - x2.len()] == '|');
    if x1.len() < x2.len() {
        assert(s2[n - 1 - x1.len()] == x2[x2.len() - 1 - x1.len()]);
    } else if x2.len() < x1.len() {
        assert(s1[n - 1 - x2.len()] == x1[x1.len() - 1 - x2.len()]);
    } else {
        assert(x1 =~= s1.subrange(n - x1.len(), n as int));
        assert(x2 =~= s2.subrange(n - x2.len(), n as int));
    }
}

proof fn lemma_opt_small_text(a: Option<u32>, b: Option<u32>)
    ensures
        no_bar(opt_number_text(match a {
            Some(p) => Some(p as nat),
            None => None,
        })),
        opt_number_text(match a {
            Some(p) => Some(p as nat),
            None => None,
        }) == opt_number_text(match b {
            Some(p) => Some(p as nat),
            None => None,
        }) ==> a == b,
{
    let pa = match a {
        Some(p) => Some(p as nat),
        None => None,
    };
    let pb = match b {
        Some(p) => Some(p as nat),
        None => None,
    };
    lemma_opt_number_text(pa, pb);
}

proof fn lemma_opt_port_text(a: Option<u16>, b: Option<u16>)
    ensures
        no_bar(opt_number_text(match a {
            Some(p) => Some(p as nat),
            None => None,
        })),
        opt_number_text(match a {
            Some(p) => Some(p as nat),
            None => None,
        }) == opt_number_text(match b {
            Some(p) => Some(p as nat),
            None => None,
        }) ==> a == b,
{
    let pa = match a {
        Some(p) => Some(p as nat),
        None => None,
    };
    let pb = match b {
        Some(p) => Some(p as nat),
        None => None,
    };
    lemma_opt_number_text(pa, pb);
}

/// Where the first four fields of a row's key stand: the pid text at 0, then
/// after each `'|'` the protocol, the local host and the local port text.
proof fn lemma_key_layout(r: PortRow)
    ensures
        ({
            let key = row_key(r);
            let p = opt_number_text(match r.0 {
                Some(x) => Some(x as nat),
                None => None,
            });
            let lp = opt_number_text(match r.3 {
                Some(x) => Some(x as nat),
                None => None,
            });
            let o1: int = p.len() + 1int;
            let o2: int = o1 + r.1.len() + 1int;
            let o3: int = o2 + r.2.len() + 1int;
            &&& o3 + lp.len() < key.len()
            &&& key.subrange(0, p.len() as int) == p
            &&& key[p.len() as int] == '|'
            &&& key.subrange(o1, o1 + r.1.len()) == r.1
            &&& key[o1 + r.1.len()] == '|'
            &&& key.subrange(o2, o2 + r.2.len()) == r.2
            &&& key[o2 + r.2.len()] == '|'
            &&& key.subrange(o3, o3 + lp.len()) == lp
            &&& key[o3 + lp.len()] == '|'
        }),
{
    reveal_strlit("|");
    let bar = "|"@;
    assert(bar =~= seq!['|']);
    let key = row_key(r);
    let p = opt_number_text(match r.0 {
        Some(x) => Some(x as nat),
        None => None,
    });
    let lp = opt_number_text(match r.3 {
        Some(x) => Some(x as nat),
        None => None,
    });
    let h = debug_quoted(match r.4 {
        Some(a) => a,
        None => Seq::empty(),
    });
    let rp = opt_number_text(match r.5 {
        Some(x) => Some(x as nat),
        None => None,
    });
    let k1 = p + bar;
    let k2 = k1 + r.1;
    let k3 = k2 + bar;
    let k4 = k3 + r.2;
    let k5 = k4 + bar;
    let k6 = k5 + lp;
    let k7 = k6 + bar;
    let k8 = k7 + h;
    let k9 = k8 + bar;
    assert(key == k9 + rp);
    assert(forall|i: int| 0 <= i < k9.len() ==> key[i] == k9[i]);
    assert(forall|i: int| 0 <= i < k8.len() ==> k9[i] == k8[i]);
    assert(forall|i: int| 0 <= i < k7.len() ==> k8[i] == k7[i]);
    assert(forall|i: int| 0 <= i < k7.len() ==> key[i] == k7[i]);
    assert(forall|i: int| 0 <= i < k6.len() ==> k7[i] == k6[i]);
    assert(forall|i: int| 0 <= i < k5.len() ==> k6[i] == k5[i]);
    assert(forall|i: int| 0 <= i < k4.len() ==> k5[i] == k4[i]);
    assert(forall|i: int| 0 <= i < k3.len() ==> k4[i] == k3[i]);
    assert(forall|i: int| 0 <= i < k2.len() ==> k3[i] == k2[i]);
    assert(forall|i: int| 0 <= i < k1.len() ==> k2[i] == k1[i]);
    assert(forall|i: int| 0 <= i < k7.len() ==> key[i] == k7[i]);
    assert(forall|i: int| 0 <= i < k5.len() ==> key[i] == k5[i]);
    assert(forall|i: int| 0 <= i < k3.len() ==> key[i] == k3[i]);
    assert(forall|i: int| 0 <= i < k1.len() ==> key[i] == k1[i]);
    let o1: int = p.len() + 1int;
    let o2: int = o1 + r.1.len() + 1int;
    let o3: int = o2 + r.2.len() + 1int;
    assert(key.subrange(0, p.len() as int) =~= p);
    assert(key.subrange(o1, o1 + r.1.len()) =~= r.1);
    assert(key.subrange(o2, o2 + r.2.len()) =~= r.2);
    assert(key.subrange(o3, o3 + lp.len()) =~= lp);
}

/// Rows that share a key are the same port of the same process: same pid and
/// same remote port, and, when neither protocol nor local host holds a
/// `'|'`, the same protocol, local host and local port.
pub proof fn lemma_row_key_fields(a: PortRow, b: PortRow)
    requires
        row_key(a) == row_key(b),
    ensures
        a.0 == b.0,
        a.5 == b.5,
        no_bar(a.1) && no_bar(b.1) && no_bar(a.2) && no_bar(b.2) ==> a.1 == b.1 && a.2 == b.2 && a.3 == b.3,
{
    lemma_opt_small_text(a.0, b.0);
    lemma_opt_small_text(b.0, a.0);
    lemma_opt_port_text(a.3, b.3);
    lemma_opt_port_text(b.3, a.3);
    lemma_opt_port_text(a.5, b.5);
    lemma_opt_port_text(b.5, a.5);
    lemma_key_layout(a);
    lemma_key_layout(b);
    let key = row_key(a);
    let pa = opt_number_text(match a.0 {
        Some(x) => Some(x as nat),
        None => None,
    });
    let pb = opt_number_text(match b.0 {
        Some(x) => Some(x as nat),
        None => None,
    });
    lemma_same_field(key, 0, pa, pb);
    assert(a.0 == b.0);
    lemma_key_rest(a, b);
    if no_bar(a.1) && no_bar(b.1) && no_bar(a.2) && no_bar(b.2) {
        let o1: int = pa.len() + 1int;
        lemma_same_field(key, o1, a.1, b.1);
        let o2: int = o1 + a.1.len() + 1int;
        lemma_same_field(key, o2, a.2, b.2);
        let o3: int = o2 + a.2.len() + 1int;
        let la = opt_number_text(match a.3 {
            Some(x) => Some(x as nat),
            None => None,
        });
        let lb = opt_number_text(match b.3 {
            Some(x) => Some(x as nat),
            None => None,
        });
        lemma_same_field(key, o3, la, lb);
    }
}

/// Rows that share a key share their remote port: it is the text after the
/// key's last `'|'`.
proof fn lemma_key_rest(a: PortRow, b: PortRow)
    requires
        row_key(a) == row_key(b),
    ensures
        a.5 == b.5,
{
    reveal_strlit("|");
    assert("|"@ =~= seq!['|']);
    lemma_opt_port_text(a.5, b.5);
    lemma_opt_port_text(b.5, a.5);
    let ra = opt_number_text(match a.5 {
        Some(x) => Some(x as nat),
        None => None,
    });
    let rb = opt_number_text(match b.5 {
        Some(x) => Some(x as nat),
        None => None,
    });
    let ya = row_key(a).subrange(0, row_key(a).len() - ra.len() - 1);
    let yb = row_key(b).subrange(0, row_key(b).len() - rb.len() - 1);
    assert(row_key(a) =~= ya + seq!['|'] + ra);
    assert(row_key(b) =~= yb + seq!['|'] + rb);
    lemma_split_last_bar(ya, ra, yb, rb);
}

/// Rows of different processes never share a key: two processes listening
/// on the same address (a server's master and its workers) each keep their
/// row.
pub proof fn lemma_row_key_separates_pids(a: PortRow, b: PortRow)
    requires
        a.0 != b.0,
    ensures
        row_key(a) != row_key(b),
{
    if row_key(a) == row_key(b) {
        lemma_row_key_fields(a, b);
    }
}

} // verus!
