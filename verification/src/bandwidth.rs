//! Interface byte counters: reading the interface list and the raw
//! counters out of the kernel's per-interface statistics table.
use vstd::prelude::*;
use vstd::string::*;
use crate::codegen::{lowercase, to_lowercase};
use crate::keyed::{entries_view, find_keyed, insert_keyed, keyed_get, keyed_insert};
use crate::text::{
    find_seq, find_seq_exec, lines_of, parse_uint, parse_uint_range, split_chars, str_chars, str_eq, split_on, split_whitespace_chars, string_from_range,
    text_lines, trim, trim_bounds, views, words,
};

verus! {

/// A network interface: its name, display name and address.
#[derive(Clone, Debug)]
pub struct InterfaceInfo {
    pub name: String,
    pub friendly_name: String,
    pub ip: String,
}

/// Raw received and sent byte counters of an interface.
#[derive(Clone, Copy, Debug)]
pub struct CounterSnapshot {
    pub rx: u64,
    pub tx: u64,
}

/// The interface named on line `l` of the statistics table (the text before
/// its first `:`, trimmed), if the line has a `:`.
pub open spec fn line_name(l: Seq<char>) -> Option<Seq<char>> {
    let p = split_on(l, ':');
    if p.len() >= 2 { Some(trim(p[0])) } else { None }
}

/// The interfaces listed in the statistics table (after its two header
/// lines), loopback excluded, in order.
pub open spec fn interfaces_from(lines: Seq<Seq<char>>, n: int) -> Seq<Seq<char>>
    decreases n,
{
    if n <= 2 || n > lines.len() {
        Seq::empty()
    } else {
        interfaces_from(lines, n - 1) + match line_name(lines[n - 1]) {
            Some(name) => if name != "lo"@ { seq![name] } else { Seq::empty() },
            None => Seq::empty(),
        }
    }
}

/// A counter field: its value as a `u64`, or 0 when it is not one.
pub open spec fn counter_value(s: Seq<char>) -> u64 {
    match parse_uint(s, u64::MAX as int) {
        Some(v) => v as u64,
        None => 0,
    }
}

/// The (name, received, sent) counters of line `l`, when it has a `:` and
/// at least ten fields after it (received bytes first, sent bytes ninth).
pub open spec fn line_counters(l: Seq<char>) -> Option<(Seq<char>, u64, u64)> {
    let p = split_on(l, ':');
    if p.len() >= 2 && words(p[1]).len() >= 10 {
        Some((trim(p[0]), counter_value(words(p[1])[0]), counter_value(words(p[1])[8])))
    } else {
        None
    }
}

/// The counters in the statistics table (after its two header lines), by
/// interface name (a later line for the same name replaces the earlier one).
pub open spec fn counters_from(lines: Seq<Seq<char>>, n: int) -> Seq<(Seq<char>, CounterSnapshot)>
    decreases n,
{
    if n <= 2 || n > lines.len() {
        Seq::empty()
    } else {
        let prev = counters_from(lines, n - 1);
        match line_counters(lines[n - 1]) {
            Some((name, rx, tx)) => keyed_insert(prev, name, CounterSnapshot { rx, tx }),
            None => prev,
        }
    }
}

/// The interfaces of the kernel's statistics table (`/proc/net/dev`), loopback
/// excluded, each with its name as display name and no address.
pub fn get_interfaces(proc_net_dev: &str) -> (r: Vec<InterfaceInfo>)
    ensures
        Seq::new(r@.len(), |i: int| r@[i].name@) == interfaces_from(text_lines(proc_net_dev@), text_lines(proc_net_dev@).len() as int),
        forall|i: int| 0 <= i < r@.len() ==> r@[i].friendly_name@ == r@[i].name@ && r@[i].ip@ == Seq::<char>::empty(),
{
    let v = crate::text::str_chars(proc_net_dev);
    let lines = lines_of(&v);
    let ghost ls = text_lines(v@);
    let mut out: Vec<InterfaceInfo> = Vec::new();
    let mut k: usize = 2;
    if lines.len() < 2 {
        proof {
            assert(interfaces_from(ls, ls.len() as int) =~= Seq::<Seq<char>>::empty());
        }
        return out;
    }
    proof {
        reveal_strlit("");
        assert(Seq::new(out@.len(), |i: int| out@[i].name@) =~= interfaces_from(ls, 2));
    }
    while k < lines.len()
        invariant
            2 <= k <= lines@.len(),
            views(lines@) == ls,
            Seq::new(out@.len(), |i: int| out@[i].name@) == interfaces_from(ls, k as int),
            forall|i: int| 0 <= i < out@.len() ==> out@[i].friendly_name@ == out@[i].name@ && out@[i].ip@ == Seq::<char>::empty(),
        decreases lines@.len() - k,
    {
        let line = &lines[k];
        assert(line@ == ls[k as int]);
        let parts = split_chars(line, ':');
        proof {
            assert(views(parts@).len() == parts@.len());
        }
        let ghost prev = Seq::new(out@.len(), |i: int| out@[i].name@);
        if parts.len() >= 2 {
            let p0 = &parts[0];
            assert(p0@ == split_on(line@, ':')[0]);
            let (a, b) = trim_bounds(p0, 0, p0.len());
            assert(p0@.subrange(0, p0@.len() as int) =~= p0@);
            let name = string_from_range(p0, a, b);
            if !crate::text::str_eq(name.as_str(), "lo") {
                let friendly = string_from_range(p0, a, b);
                out.push(InterfaceInfo { name, friendly_name: friendly, ip: String::new() });
                assert(Seq::new(out@.len(), |i: int| out@[i].name@) =~= prev.push(out@.last().name@));
            }
        }
        k = k + 1;
        assert(Seq::new(out@.len(), |i: int| out@[i].name@) =~= interfaces_from(ls, k as int));
    }
    out
}

/// Reads a counter field (see [`counter_value`]).
fn read_counter(s: &Vec<char>) -> (r: u64)
    ensures
        r == counter_value(s@),
{
    assert(s@.subrange(0, s@.len() as int) =~= s@);
    match parse_uint_range(s, 0, s.len(), u64::MAX) {
        Some(x) => x,
        None => 0,
    }
}

/// The received and sent byte counters of the kernel's statistics table
/// (`/proc/net/dev`), by interface name.
pub fn get_counters(proc_net_dev: &str) -> (r: Vec<(String, CounterSnapshot)>)
    ensures
        entries_view(r@) == counters_from(text_lines(proc_net_dev@), text_lines(proc_net_dev@).len() as int),
{
    let v = crate::text::str_chars(proc_net_dev);
    let lines = lines_of(&v);
    let ghost ls = text_lines(v@);
    let mut out: Vec<(String, CounterSnapshot)> = Vec::new();
    if lines.len() < 2 {
        proof {
            assert(counters_from(ls, ls.len() as int) =~= Seq::<(Seq<char>, CounterSnapshot)>::empty());
        }
        return out;
    }
    proof {
        assert(entries_view(out@) =~= counters_from(ls, 2));
    }
    let mut k: usize = 2;
    while k < lines.len()
        invariant
            2 <= k <= lines@.len(),
            views(lines@) == ls,
            entries_view(out@) == counters_from(ls, k as int),
        decreases lines@.len() - k,
    {
        let line = &lines[k];
        assert(line@ == ls[k as int]);
        let parts = split_chars(line, ':');
        proof {
            assert(views(parts@).len() == parts@.len());
        }
        if parts.len() >= 2 {
            let values = split_whitespace_chars(&parts[1]);
            proof {
                assert(views(values@).len() == values@.len());
            }
            if values.len() >= 10 {
                let p0 = &parts[0];
                let (a, b) = trim_bounds(p0, 0, p0.len());
                assert(p0@.subrange(0, p0@.len() as int) =~= p0@);
                let name = string_from_range(p0, a, b);
                let rx = read_counter(&values[0]);
                let tx = read_counter(&values[8]);
                insert_keyed(&mut out, name, CounterSnapshot { rx, tx });
            }
        }
        k = k + 1;

    }
    out
}


/// The lines that are not empty, in order.
pub open spec fn nonempty_lines(ls: Seq<Seq<char>>) -> Seq<Seq<char>>
    decreases ls.len(),
{
    if ls.len() == 0 {
        Seq::empty()
    } else {
        let rest = nonempty_lines(ls.drop_last());
        if ls.last().len() > 0 { rest.push(ls.last()) } else { rest }
    }
}

/// The data rows of CSV output from the management tool: the non-empty
/// lines after the first (the header).
pub open spec fn csv_rows(output: Seq<char>) -> Seq<Seq<char>> {
    let ne = nonempty_lines(text_lines(output));
    if ne.len() == 0 { ne } else { ne.drop_first() }
}

/// The comma-separated fields of a data row, trimmed first; `None` for a
/// blank row or one that mentions `node` in any case (a repeated header).
pub open spec fn row_fields(l: Seq<char>) -> Option<Seq<Seq<char>>> {
    let t = trim(l);
    if t.len() == 0 || find_seq(lowercase(t), "node"@, 0) is Some {
        None
    } else {
        Some(split_on(t, ','))
    }
}

fn csv_data_rows(output: &str) -> (r: Vec<Vec<char>>)
    ensures
        views(r@) == csv_rows(output@),
{
    let v = str_chars(output);
    let lines = lines_of(&v);
    let ghost ls = text_lines(v@);
    let mut ne: Vec<Vec<char>> = Vec::new();
    let mut i: usize = 0;
    assert(views(ne@) =~= nonempty_lines(ls.subrange(0, 0)));
    while i < lines.len()
        invariant
            views(lines@) == ls,
            i <= lines@.len(),
            views(ne@) == nonempty_lines(ls.subrange(0, i as int)),
        decreases lines@.len() - i,
    {
        assert(ls.subrange(0, i + 1).drop_last() =~= ls.subrange(0, i as int));
        assert(lines[i as int]@ == ls[i as int]);
        if lines[i].len() > 0 {
            let ghost before = views(ne@);
            ne.push(slice_all(&lines[i]));
            assert(views(ne@) =~= before.push(ls[i as int]));
        }
        i = i + 1;
    }
    assert(ls.subrange(0, lines@.len() as int) =~= ls);
    if ne.len() == 0 {
        return ne;
    }
    let ghost all = views(ne@);
    ne.remove(0);
    assert(views(ne@) =~= all.drop_first());
    ne
}

fn slice_all(v: &Vec<char>) -> (r: Vec<char>)
    ensures
        r@ == v@,
{
    assert(v@.subrange(0, v@.len() as int) =~= v@);
    crate::text::slice_chars(v, 0, v.len())
}

fn trimmed(v: &Vec<char>) -> (r: Vec<char>)
    ensures
        r@ == trim(v@),
{
    let (a, b) = trim_bounds(v, 0, v.len());
    assert(v@.subrange(0, v@.len() as int) =~= v@);
    crate::text::slice_chars(v, a, b)
}

fn row_fields_exec(l: &Vec<char>) -> (r: Option<Vec<Vec<char>>>)
    ensures
        match r {
            Some(f) => row_fields(l@) == Some(views(f@)),
            None => row_fields(l@) is None,
        },
{
    let t = trimmed(l);
    if t.len() == 0 {
        return None;
    }
    let ts = crate::text::string_from_chars(&t);
    let low = to_lowercase(ts.as_str());
    let lv = str_chars(low.as_str());
    if find_seq_exec(&lv, "node").is_some() {
        return None;
    }
    Some(split_chars(&t, ','))
}

/// The interfaces listed in rows with at least four fields and a non-empty
/// name (fourth field), as (index, connection name), in order.
pub open spec fn csv_interfaces(rows: Seq<Seq<char>>) -> Seq<(Seq<char>, Seq<char>)>
    decreases rows.len(),
{
    if rows.len() == 0 {
        Seq::empty()
    } else {
        let rest = csv_interfaces(rows.drop_last());
        match row_fields(rows.last()) {
            Some(f) => if f.len() >= 4 && trim(f[3]).len() > 0 { rest.push((trim(f[1]), trim(f[2]))) } else { rest },
            None => rest,
        }
    }
}

/// Parses the network adapter list (`Node,Index,NetConnectionID,Name`):
/// each interface's name is its index (for matching addresses later), its
/// display name the connection name, and its address empty.
pub fn parse_interface_csv(output: &str) -> (r: Result<Vec<InterfaceInfo>, String>)
    ensures
        r matches Ok(v) && Seq::new(v@.len(), |i: int| (v@[i].name@, v@[i].friendly_name@)) == csv_interfaces(csv_rows(output@))
            && forall|i: int| 0 <= i < v@.len() ==> v@[i].ip@ == Seq::<char>::empty(),
{
    let rows = csv_data_rows(output);
    let ghost rs = csv_rows(output@);
    let mut out: Vec<InterfaceInfo> = Vec::new();
    let mut i: usize = 0;
    assert(Seq::new(out@.len(), |i: int| (out@[i].name@, out@[i].friendly_name@)) =~= csv_interfaces(rs.subrange(0, 0)));
    while i < rows.len()
        invariant
            views(rows@) == rs,
            i <= rows@.len(),
            Seq::new(out@.len(), |i: int| (out@[i].name@, out@[i].friendly_name@)) == csv_interfaces(rs.subrange(0, i as int)),
            forall|j: int| 0 <= j < out@.len() ==> out@[j].ip@ == Seq::<char>::empty(),
        decreases rows@.len() - i,
    {
        assert(rs.subrange(0, i + 1).drop_last() =~= rs.subrange(0, i as int));
        assert(rows[i as int]@ == rs[i as int]);
        let ghost before = Seq::new(out@.len(), |i: int| (out@[i].name@, out@[i].friendly_name@));
        if let Some(f) = row_fields_exec(&rows[i]) {
            if f.len() >= 4 {
                let name = trimmed(&f[3]);
                if name.len() > 0 {
                    let index = crate::text::string_from_chars(&trimmed(&f[1]));
                    let friendly = crate::text::string_from_chars(&trimmed(&f[2]));
                    out.push(InterfaceInfo { name: index, friendly_name: friendly, ip: String::new() });
                    assert(Seq::new(out@.len(), |i: int| (out@[i].name@, out@[i].friendly_name@))
                        =~= before.push((trim(views(f@)[1]), trim(views(f@)[2]))));
                }
            }
        }
        i = i + 1;
    }
    assert(rs.subrange(0, rows@.len() as int) =~= rs);
    Ok(out)
}

/// The first address of each adapter in rows with at least three fields
/// (`Node,Index,IPAddress`, addresses separated by `;`), by index.
pub open spec fn csv_ips(rows: Seq<Seq<char>>) -> Seq<(Seq<char>, Seq<char>)>
    decreases rows.len(),
{
    if rows.len() == 0 {
        Seq::empty()
    } else {
        let rest = csv_ips(rows.drop_last());
        match row_fields(rows.last()) {
            Some(f) => if f.len() >= 3 { keyed_insert(rest, trim(f[1]), split_on(trim(f[2]), ';')[0]) } else { rest },
            None => rest,
        }
    }
}

/// Parses the adapter address list into the first address of each adapter, by index.
pub fn parse_ip_config_csv(output: &str) -> (r: Vec<(String, String)>)
    ensures
        entries_view(r@).map_values(|e: (Seq<char>, String)| (e.0, e.1@)) == csv_ips(csv_rows(output@)),
{
    let rows = csv_data_rows(output);
    let ghost rs = csv_rows(output@);
    let mut map: Vec<(String, String)> = Vec::new();
    let mut i: usize = 0;
    assert(entries_view(map@).map_values(|e: (Seq<char>, String)| (e.0, e.1@)) =~= csv_ips(rs.subrange(0, 0)));
    while i < rows.len()
        invariant
            views(rows@) == rs,
            i <= rows@.len(),
            entries_view(map@).map_values(|e: (Seq<char>, String)| (e.0, e.1@)) == csv_ips(rs.subrange(0, i as int)),
        decreases rows@.len() - i,
    {
        assert(rs.subrange(0, i + 1).drop_last() =~= rs.subrange(0, i as int));
        assert(rows[i as int]@ == rs[i as int]);
        if let Some(f) = row_fields_exec(&rows[i]) {
            if f.len() >= 3 {
                let index = crate::text::string_from_chars(&trimmed(&f[1]));
                let ipv = trimmed(&f[2]);
                let pieces = split_chars(&ipv, ';');
                proof { crate::text::lemma_split_on_nonempty(ipv@, ';'); }
                let first = crate::text::string_from_chars(&pieces[0]);
                let ghost before = entries_view(map@);
                let ghost (kv, vv) = (index@, first@);
                insert_keyed(&mut map, index, first);
                proof { lemma_keyed_insert_map(before, kv, first); }
            }
        }
        i = i + 1;
    }
    assert(rs.subrange(0, rows@.len() as int) =~= rs);
    map
}

proof fn lemma_keyed_insert_map(s: Seq<(Seq<char>, String)>, k: Seq<char>, v: String)
    ensures
        keyed_insert(s, k, v).map_values(|e: (Seq<char>, String)| (e.0, e.1@))
            == keyed_insert(s.map_values(|e: (Seq<char>, String)| (e.0, e.1@)), k, v@),
{
    lemma_key_pos_map(s, k);
    match crate::keyed::key_pos(s, k) {
        Some(i) => {
            assert(keyed_insert(s, k, v).map_values(|e: (Seq<char>, String)| (e.0, e.1@))
                =~= s.map_values(|e: (Seq<char>, String)| (e.0, e.1@)).update(i, (k, v@)));
        },
        None => {
            assert(keyed_insert(s, k, v).map_values(|e: (Seq<char>, String)| (e.0, e.1@))
                =~= s.map_values(|e: (Seq<char>, String)| (e.0, e.1@)).push((k, v@)));
        },
    }
}

proof fn lemma_key_pos_map(s: Seq<(Seq<char>, String)>, k: Seq<char>)
    ensures
        crate::keyed::key_pos(s, k) == crate::keyed::key_pos(s.map_values(|e: (Seq<char>, String)| (e.0, e.1@)), k),
        crate::keyed::key_pos(s, k) matches Some(i) ==> 0 <= i < s.len(),
    decreases s.len(),
{
    if s.len() > 0 {
        assert(s.drop_last().map_values(|e: (Seq<char>, String)| (e.0, e.1@))
            =~= s.map_values(|e: (Seq<char>, String)| (e.0, e.1@)).drop_last());
        lemma_key_pos_map(s.drop_last(), k);
    }
}

/// The counters in rows with at least four fields
/// (`Node,Name,BytesReceivedPersec,BytesSentPersec`), by name; a field that
/// is not a number counts as 0.
pub open spec fn csv_counters(rows: Seq<Seq<char>>) -> Seq<(Seq<char>, CounterSnapshot)>
    decreases rows.len(),
{
    if rows.len() == 0 {
        Seq::empty()
    } else {
        let rest = csv_counters(rows.drop_last());
        match row_fields(rows.last()) {
            Some(f) => if f.len() >= 4 {
                keyed_insert(rest, trim(f[1]), CounterSnapshot { rx: counter_value(trim(f[2])), tx: counter_value(trim(f[3])) })
            } else {
                rest
            },
            None => rest,
        }
    }
}

/// Parses the performance counter list into byte counters, by interface name.
pub fn parse_counter_csv(output: &str) -> (r: Result<Vec<(String, CounterSnapshot)>, String>)
    ensures
        r matches Ok(v) && entries_view(v@) == csv_counters(csv_rows(output@)),
{
    let rows = csv_data_rows(output);
    let ghost rs = csv_rows(output@);
    let mut map: Vec<(String, CounterSnapshot)> = Vec::new();
    let mut i: usize = 0;
    assert(entries_view(map@) =~= csv_counters(rs.subrange(0, 0)));
    while i < rows.len()
        invariant
            views(rows@) == rs,
            i <= rows@.len(),
            entries_view(map@) == csv_counters(rs.subrange(0, i as int)),
        decreases rows@.len() - i,
    {
        assert(rs.subrange(0, i + 1).drop_last() =~= rs.subrange(0, i as int));
        assert(rows[i as int]@ == rs[i as int]);
        if let Some(f) = row_fields_exec(&rows[i]) {
            if f.len() >= 4 {
                let name = crate::text::string_from_chars(&trimmed(&f[1]));
                let rx = read_counter(&trimmed(&f[2]));
                let tx = read_counter(&trimmed(&f[3]));
                insert_keyed(&mut map, name, CounterSnapshot { rx, tx });
            }
        }
        i = i + 1;
    }
    assert(rs.subrange(0, rows@.len() as int) =~= rs);
    Ok(map)
}

/// An interface as values: name, display name, address.
pub type InterfaceView = (Seq<char>, Seq<char>, Seq<char>);

impl InterfaceInfo {
    pub open spec fn view(&self) -> InterfaceView {
        (self.name@, self.friendly_name@, self.ip@)
    }
}

/// An interface with its address taken from the address list, when its
/// name (the adapter index) is there.
pub open spec fn with_ip(i: InterfaceView, ips: Seq<(Seq<char>, Seq<char>)>) -> InterfaceView {
    match keyed_get(ips, i.0) {
        Some(ip) => (i.0, i.1, ip),
        None => i,
    }
}

/// The interfaces with addresses filled in whose name is (`star`) or is not
/// (`!star`) the aggregate `*`, in order.
pub open spec fn merged_part(ifs: Seq<InterfaceView>, ips: Seq<(Seq<char>, Seq<char>)>, star: bool) -> Seq<InterfaceView>
    decreases ifs.len(),
{
    if ifs.len() == 0 {
        Seq::empty()
    } else {
        let rest = merged_part(ifs.drop_last(), ips, star);
        if (ifs.last().0 == "*"@) == star { rest.push(with_ip(ifs.last(), ips)) } else { rest }
    }
}

/// Interfaces with their addresses filled in from the address list (by the
/// index kept in the name), the aggregate `*` entries moved last, the order
/// otherwise kept.
pub open spec fn merged_interfaces(ifs: Seq<InterfaceView>, ips: Seq<(Seq<char>, Seq<char>)>) -> Seq<InterfaceView> {
    merged_part(ifs, ips, false) + merged_part(ifs, ips, true)
}

/// The views of a list of interfaces.
pub open spec fn interfaces_view(v: Seq<InterfaceInfo>) -> Seq<InterfaceView> {
    Seq::new(v.len(), |i: int| v[i].view())
}

fn merged_part_exec(ifs: &Vec<InterfaceInfo>, ips: &Vec<(String, String)>, star: bool) -> (r: Vec<InterfaceInfo>)
    ensures
        interfaces_view(r@) == merged_part(interfaces_view(ifs@), entries_view(ips@).map_values(|e: (Seq<char>, String)| (e.0, e.1@)), star),
{
    let ghost iv = interfaces_view(ifs@);
    let ghost m = entries_view(ips@).map_values(|e: (Seq<char>, String)| (e.0, e.1@));
    let mut out: Vec<InterfaceInfo> = Vec::new();
    let mut i: usize = 0;
    assert(interfaces_view(out@) =~= merged_part(iv.subrange(0, 0), m, star));
    while i < ifs.len()
        invariant
            iv == interfaces_view(ifs@),
            m == entries_view(ips@).map_values(|e: (Seq<char>, String)| (e.0, e.1@)),
            i <= ifs@.len(),
            interfaces_view(out@) == merged_part(iv.subrange(0, i as int), m, star),
        decreases ifs@.len() - i,
    {
        assert(iv.subrange(0, i + 1).drop_last() =~= iv.subrange(0, i as int));
        let info = &ifs[i];
        if str_eq(info.name.as_str(), "*") == star {
            let ip = match find_keyed(ips, info.name.as_str()) {
                Some(k) => {
                    proof { lemma_key_pos_map(entries_view(ips@), info.name@); }
                    assert(entries_view(ips@).map_values(|e: (Seq<char>, String)| (e.0, e.1@))[k as int].1 == ips@[k as int].1@);
                    ips[k].1.clone()
                },
                None => {
                    proof { lemma_key_pos_map(entries_view(ips@), info.name@); }
                    info.ip.clone()
                },
            };
            let ghost before = interfaces_view(out@);
            out.push(InterfaceInfo { name: info.name.clone(), friendly_name: info.friendly_name.clone(), ip });
            assert(interfaces_view(out@) =~= before.push(with_ip(iv[i as int], m)));
        }
        i = i + 1;
    }
    assert(iv.subrange(0, ifs@.len() as int) =~= iv);
    out
}

/// Fills in each interface's address from the adapter address list (see
/// [`merged_interfaces`]).
pub fn merge_interfaces(ifs: &Vec<InterfaceInfo>, ips: &Vec<(String, String)>) -> (r: Vec<InterfaceInfo>)
    ensures
        interfaces_view(r@) == merged_interfaces(interfaces_view(ifs@), entries_view(ips@).map_values(|e: (Seq<char>, String)| (e.0, e.1@))),
{
    let mut first = merged_part_exec(ifs, ips, false);
    let mut last = merged_part_exec(ifs, ips, true);
    let ghost (a, b) = (interfaces_view(first@), interfaces_view(last@));
    first.append(&mut last);
    assert(interfaces_view(first@) =~= a + b);
    first
}


/// The change of an interface's counters between two readings, with the
/// current totals.
pub struct CounterDelta {
    pub interface: String,
    pub rx_delta: u64,
    pub tx_delta: u64,
    pub total_rx: u64,
    pub total_tx: u64,
}

/// A delta as values: interface, received and sent growth, received and sent totals.
pub type DeltaView = (Seq<char>, u64, u64, u64, u64);

impl CounterDelta {
    pub open spec fn view(&self) -> DeltaView {
        (self.interface@, self.rx_delta, self.tx_delta, self.total_rx, self.total_tx)
    }
}

/// `a - b`, or 0 when `b` is larger (a counter that went back, as after a reset).
pub open spec fn grown(a: u64, b: u64) -> u64 {
    if a >= b { (a - b) as u64 } else { 0 }
}

/// The interfaces of `current` also in `previous`, with (current, previous) counters, in order.
pub open spec fn matched(previous: Seq<(Seq<char>, CounterSnapshot)>, current: Seq<(Seq<char>, CounterSnapshot)>)
    -> Seq<(Seq<char>, CounterSnapshot, CounterSnapshot)>
    decreases current.len(),
{
    if current.len() == 0 {
        Seq::empty()
    } else {
        let rest = matched(previous, current.drop_last());
        match keyed_get(previous, current.last().0) {
            Some(p) => rest.push((current.last().0, current.last().1, p)),
            None => rest,
        }
    }
}

/// The totals of the matched interfaces: current received, current sent,
/// previous received, previous sent.
pub open spec fn matched_sums(m: Seq<(Seq<char>, CounterSnapshot, CounterSnapshot)>) -> (int, int, int, int)
    decreases m.len(),
{
    if m.len() == 0 {
        (0, 0, 0, 0)
    } else {
        let s = matched_sums(m.drop_last());
        let e = m.last();
        (s.0 + e.1.rx, s.1 + e.1.tx, s.2 + e.2.rx, s.3 + e.2.tx)
    }
}

/// One delta per matched interface, then the aggregate `*` over all of them.
pub open spec fn deltas_of(previous: Seq<(Seq<char>, CounterSnapshot)>, current: Seq<(Seq<char>, CounterSnapshot)>) -> Seq<DeltaView> {
    let m = matched(previous, current);
    let t = matched_sums(m);
    Seq::new(m.len(), |i: int| (m[i].0, grown(m[i].1.rx, m[i].2.rx), grown(m[i].1.tx, m[i].2.tx), m[i].1.rx, m[i].1.tx))
        .push(("*"@, grown(t.0 as u64, t.2 as u64), grown(t.1 as u64, t.3 as u64), t.0 as u64, t.1 as u64))
}

proof fn lemma_sums_monotone(m: Seq<(Seq<char>, CounterSnapshot, CounterSnapshot)>, i: int)
    requires
        0 <= i <= m.len(),
    ensures
        matched_sums(m.subrange(0, i)).0 <= matched_sums(m).0,
        matched_sums(m.subrange(0, i)).1 <= matched_sums(m).1,
        matched_sums(m.subrange(0, i)).2 <= matched_sums(m).2,
        matched_sums(m.subrange(0, i)).3 <= matched_sums(m).3,
        0 <= matched_sums(m.subrange(0, i)).0,
        0 <= matched_sums(m.subrange(0, i)).1,
        0 <= matched_sums(m.subrange(0, i)).2,
        0 <= matched_sums(m.subrange(0, i)).3,
    decreases m.len() - i,
{
    if i < m.len() {
        lemma_sums_monotone(m, i + 1);
        assert(m.subrange(0, i + 1).drop_last() =~= m.subrange(0, i));
        lemma_sums_nonneg(m.subrange(0, i));
    } else {
        assert(m.subrange(0, i) =~= m);
        lemma_sums_nonneg(m);
    }
}

proof fn lemma_sums_nonneg(m: Seq<(Seq<char>, CounterSnapshot, CounterSnapshot)>)
    ensures
        0 <= matched_sums(m).0 && 0 <= matched_sums(m).1 && 0 <= matched_sums(m).2 && 0 <= matched_sums(m).3,
    decreases m.len(),
{
    if m.len() > 0 {
        lemma_sums_nonneg(m.drop_last());
    }
}

/// Compares two counter readings: for each interface of `current` found in
/// `previous` (in `current`'s order), how much its counters grew (0 if they
/// went back), then the same for the sum over those interfaces, named `*`.
/// The sums must fit in 64 bits.
pub fn counter_deltas(previous: &Vec<(String, CounterSnapshot)>, current: &Vec<(String, CounterSnapshot)>) -> (r: Vec<CounterDelta>)
    requires
        ({
            let t = matched_sums(matched(entries_view(previous@), entries_view(current@)));
            t.0 <= u64::MAX && t.1 <= u64::MAX && t.2 <= u64::MAX && t.3 <= u64::MAX
        }),
    ensures
        Seq::new(r@.len(), |i: int| r@[i].view()) == deltas_of(entries_view(previous@), entries_view(current@)),
{
    let ghost pv = entries_view(previous@);
    let ghost cv = entries_view(current@);
    let ghost m = matched(pv, cv);
    let mut out: Vec<CounterDelta> = Vec::new();
    let (mut rx, mut tx, mut prx, mut ptx): (u64, u64, u64, u64) = (0, 0, 0, 0);
    let mut i: usize = 0;
    assert(cv.subrange(0, 0) =~= Seq::<(Seq<char>, CounterSnapshot)>::empty());
    while i < current.len()
        invariant
            pv == entries_view(previous@),
            cv == entries_view(current@),
            m == matched(pv, cv),
            matched_sums(m).0 <= u64::MAX && matched_sums(m).1 <= u64::MAX,
            matched_sums(m).2 <= u64::MAX && matched_sums(m).3 <= u64::MAX,
            i <= current@.len(),
            ({
                let mi = matched(pv, cv.subrange(0, i as int));
                &&& Seq::new(out@.len(), |k: int| out@[k].view())
                    == Seq::new(mi.len(), |k: int| (mi[k].0, grown(mi[k].1.rx, mi[k].2.rx), grown(mi[k].1.tx, mi[k].2.tx), mi[k].1.rx, mi[k].1.tx))
                &&& (rx as int, tx as int, prx as int, ptx as int) == matched_sums(mi)
                &&& mi == m.subrange(0, mi.len() as int)
                &&& mi.len() <= m.len()
            }),
        decreases current@.len() - i,
    {
        let ghost mi = matched(pv, cv.subrange(0, i as int));
        assert(cv.subrange(0, i + 1).drop_last() =~= cv.subrange(0, i as int));
        assert(cv.subrange(0, i + 1).last() == cv[i as int]);
        let name = current[i].0.as_str();
        let cur = current[i].1;
        match find_keyed(previous, name) {
            Some(k) => {
                let p = previous[k].1;
                let ghost mi2 = mi.push((cv[i as int].0, cur, p));
                assert(matched(pv, cv.subrange(0, i + 1)) == mi2);
                proof {
                    lemma_matched_prefix(pv, cv, i + 1);
                    lemma_sums_monotone(m, mi2.len() as int);
                    assert(m.subrange(0, mi2.len() as int) == mi2);
                    assert(mi2.drop_last() =~= mi);
                }
                let rx_delta = cur.rx.saturating_sub(p.rx);
                let tx_delta = cur.tx.saturating_sub(p.tx);
                let ghost before = Seq::new(out@.len(), |k: int| out@[k].view());
                out.push(CounterDelta { interface: current[i].0.clone(), rx_delta, tx_delta, total_rx: cur.rx, total_tx: cur.tx });
                assert(Seq::new(out@.len(), |k: int| out@[k].view()) =~= before.push(
                    (cv[i as int].0, grown(cur.rx, p.rx), grown(cur.tx, p.tx), cur.rx, cur.tx)));
                rx = rx + cur.rx;
                tx = tx + cur.tx;
                prx = prx + p.rx;
                ptx = ptx + p.tx;
                assert(Seq::new(out@.len(), |k: int| out@[k].view())
                    =~= Seq::new(mi2.len(), |k: int| (mi2[k].0, grown(mi2[k].1.rx, mi2[k].2.rx), grown(mi2[k].1.tx, mi2[k].2.tx), mi2[k].1.rx, mi2[k].1.tx)));
            },
            None => {
                proof { lemma_matched_prefix(pv, cv, i + 1); }
            },
        }
        i = i + 1;
    }
    assert(cv.subrange(0, current@.len() as int) =~= cv);
    let ghost before = Seq::new(out@.len(), |k: int| out@[k].view());
    out.push(CounterDelta {
        interface: String::from_str("*"),
        rx_delta: rx.saturating_sub(prx),
        tx_delta: tx.saturating_sub(ptx),
        total_rx: rx,
        total_tx: tx,
    });
    assert(Seq::new(out@.len(), |k: int| out@[k].view()) =~= deltas_of(pv, cv));
    out
}

proof fn lemma_matched_prefix(pv: Seq<(Seq<char>, CounterSnapshot)>, cv: Seq<(Seq<char>, CounterSnapshot)>, i: int)
    requires
        0 <= i <= cv.len(),
    ensures
        matched(pv, cv.subrange(0, i)).len() <= matched(pv, cv).len(),
        matched(pv, cv.subrange(0, i)) == matched(pv, cv).subrange(0, matched(pv, cv.subrange(0, i)).len() as int),
    decreases cv.len() - i,
{
    if i < cv.len() {
        lemma_matched_prefix(pv, cv, i + 1);
        assert(cv.subrange(0, i + 1).drop_last() =~= cv.subrange(0, i));
        let a = matched(pv, cv.subrange(0, i));
        let b = matched(pv, cv.subrange(0, i + 1));
        let full = matched(pv, cv);
        assert(b.subrange(0, a.len() as int) =~= a);
        assert(full.subrange(0, a.len() as int) =~= full.subrange(0, b.len() as int).subrange(0, a.len() as int));
    } else {
        assert(cv.subrange(0, i) =~= cv);
        assert(matched(pv, cv).subrange(0, matched(pv, cv).len() as int) =~= matched(pv, cv));
    }
}

} // verus!
