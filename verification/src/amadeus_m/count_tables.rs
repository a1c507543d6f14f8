//! The grammar's count tables in their binary record form: each row is a
//! key, the bits of its total and its entries (each an entry key and the
//! bits of its count), every field stored little-endian in the width its
//! table gives it.
use vstd::prelude::*;
use vstd::bytes::{
    spec_u16_from_le_bytes, spec_u16_to_le_bytes, spec_u32_from_le_bytes, spec_u32_to_le_bytes,
    u16_from_le_bytes, u32_from_le_bytes,
};
use crate::amadeus_m::compiler_state::{push_u16, push_u32, rd_u32};
use crate::quant::gguf::{at, concat_map, lemma_at_concat, lemma_concat_push, lemma_read_u16, lemma_read_u32};

verus! {

// ───────────────────────── cells and layouts ─────────────────────────

/// How many bytes a stored field takes.
#[derive(Debug, Clone, Copy, PartialEq, Eq, Structural)]
pub enum Width {
    One,
    Two,
    Four,
}

pub open spec fn width_len(w: Width) -> nat {
    match w {
        Width::One => 1,
        Width::Two => 2,
        Width::Four => 4,
    }
}

/// A field as stored: the low bytes of its value, little-endian.
pub open spec fn cell_bytes(v: u32, w: Width) -> Seq<u8> {
    match w {
        Width::One => seq![v as u8],
        Width::Two => spec_u16_to_le_bytes(v as u16),
        Width::Four => spec_u32_to_le_bytes(v),
    }
}

/// The value fits the field's width.
pub open spec fn cell_fits(v: u32, w: Width) -> bool {
    match w {
        Width::One => v < 0x100,
        Width::Two => v < 0x10000,
        Width::Four => true,
    }
}

/// The kinds of count table: agreement (head morphology, style and class
/// to morphology and style), agreement by class, and the lexical tables
/// from the most specific key (morphology, syntactic function, style) to
/// the class alone.
#[derive(Debug, Clone, Copy, PartialEq, Eq, Structural)]
pub enum TableKind {
    Agreement,
    AgreementClass,
    Lexicon,
    ClassSynStyle,
    ClassSyn,
    ClassStyle,
    Class,
}

/// The widths of a row key's fields.
pub open spec fn key_widths(k: TableKind) -> Seq<Width> {
    match k {
        TableKind::Agreement => seq![Width::Two, Width::Two, Width::One],
        TableKind::AgreementClass => seq![Width::One],
        TableKind::Lexicon => seq![Width::Two, Width::One, Width::Two],
        TableKind::ClassSynStyle => seq![Width::One, Width::One, Width::Two],
        TableKind::ClassSyn => seq![Width::One, Width::One],
        TableKind::ClassStyle => seq![Width::One, Width::Two],
        TableKind::Class => seq![Width::One],
    }
}

/// The widths of an entry key's fields.
pub open spec fn entry_widths(k: TableKind) -> Seq<Width> {
    match k {
        TableKind::Agreement | TableKind::AgreementClass => seq![Width::Two, Width::Two],
        _ => seq![Width::Four],
    }
}

pub fn key_layout(k: TableKind) -> (v: Vec<Width>)
    ensures
        v@ == key_widths(k),
{
    let v = match k {
        TableKind::Agreement => vec![Width::Two, Width::Two, Width::One],
        TableKind::AgreementClass => vec![Width::One],
        TableKind::Lexicon => vec![Width::Two, Width::One, Width::Two],
        TableKind::ClassSynStyle => vec![Width::One, Width::One, Width::Two],
        TableKind::ClassSyn => vec![Width::One, Width::One],
        TableKind::ClassStyle => vec![Width::One, Width::Two],
        TableKind::Class => vec![Width::One],
    };
    assert(v@ =~= key_widths(k));
    v
}

pub fn entry_layout(k: TableKind) -> (v: Vec<Width>)
    ensures
        v@ == entry_widths(k),
{
    let v = match k {
        TableKind::Agreement | TableKind::AgreementClass => vec![Width::Two, Width::Two],
        _ => vec![Width::Four],
    };
    assert(v@ =~= entry_widths(k));
    v
}

// ───────────────────────── rows ─────────────────────────

/// A row of a count table. Key fields past the table's layout are zero;
/// so are the second fields of entries whose key has one field.
#[derive(Debug)]
pub struct CountRow {
    pub key: (u32, u32, u32),
    pub total: u32,
    /// Each entry's key fields and the bits of its count.
    pub entries: Vec<(u32, u32, u32)>,
}

pub type RowView = ((u32, u32, u32), u32, Seq<(u32, u32, u32)>);

pub open spec fn row_view(r: CountRow) -> RowView {
    (r.key, r.total, r.entries@)
}

pub open spec fn rows_view(rs: Seq<CountRow>) -> Seq<RowView> {
    rs.map_values(|r: CountRow| row_view(r))
}

pub open spec fn cells(t: (u32, u32, u32)) -> Seq<u32> {
    seq![t.0, t.1, t.2]
}

/// The first `ws.len()` values of `c`, each in its width.
pub open spec fn fields_bytes(c: Seq<u32>, ws: Seq<Width>) -> Seq<u8>
    decreases ws.len(),
{
    if ws.len() == 0 || c.len() == 0 {
        Seq::empty()
    } else {
        cell_bytes(c[0], ws[0]) + fields_bytes(c.drop_first(), ws.drop_first())
    }
}

pub open spec fn entry_bytes(k: TableKind, e: (u32, u32, u32)) -> Seq<u8> {
    fields_bytes(seq![e.0, e.1], entry_widths(k)) + spec_u32_to_le_bytes(e.2)
}

/// A row as stored: its key fields, its total, its entry count (`u32`) and
/// its entries.
pub open spec fn row_bytes(k: TableKind, r: RowView) -> Seq<u8> {
    fields_bytes(cells(r.0), key_widths(k)) + spec_u32_to_le_bytes(r.1) + spec_u32_to_le_bytes(
        r.2.len() as u32,
    ) + concat_map(r.2, |e: (u32, u32, u32)| entry_bytes(k, e))
}

/// A table as stored: its row count (`u32`) and its rows.
pub open spec fn table_bytes(k: TableKind, rows: Seq<RowView>) -> Seq<u8> {
    spec_u32_to_le_bytes(rows.len() as u32) + concat_map(rows, |r: RowView| row_bytes(k, r))
}

pub(crate) fn push_cell(data: &mut Vec<u8>, v: u32, w: Width)
    ensures
        final(data)@ == old(data)@ + cell_bytes(v, w),
{
    match w {
        Width::One => {
            data.push(v as u8);
            assert(data@ =~= old(data)@ + cell_bytes(v, w));
        },
        Width::Two => push_u16(data, v as u16),
        Width::Four => push_u32(data, v),
    }
}

fn push_fields(data: &mut Vec<u8>, c: &[u32], ws: &[Width])
    requires
        ws@.len() <= c@.len(),
    ensures
        final(data)@ == old(data)@ + fields_bytes(c@, ws@),
{
    let mut i: usize = 0;
    assert(c@.skip(0) =~= c@ && ws@.skip(0) =~= ws@);
    while i < ws.len()
        invariant
            i <= ws@.len() <= c@.len(),
            data@ + fields_bytes(c@.skip(i as int), ws@.skip(i as int)) == old(data)@ + fields_bytes(
                c@,
                ws@,
            ),
        decreases ws.len() - i,
    {
        assert(c@.skip(i as int).drop_first() =~= c@.skip(i + 1));
        assert(ws@.skip(i as int).drop_first() =~= ws@.skip(i + 1));
        assert(data@ + cell_bytes(c@[i as int], ws@[i as int]) + fields_bytes(c@.skip(i + 1), ws@.skip(i + 1))
            =~= data@ + fields_bytes(c@.skip(i as int), ws@.skip(i as int)));
        push_cell(data, c[i], ws[i]);
        i += 1;
    }
    assert(data@ + fields_bytes(c@.skip(i as int), ws@.skip(i as int)) =~= data@);
}

fn push_entries(data: &mut Vec<u8>, k: TableKind, es: &[(u32, u32, u32)])
    ensures
        final(data)@ == old(data)@ + concat_map(es@, |e: (u32, u32, u32)| entry_bytes(k, e)),
{
    let ws = entry_layout(k);
    let ghost f = |e: (u32, u32, u32)| entry_bytes(k, e);
    let mut i: usize = 0;
    while i < es.len()
        invariant
            i <= es@.len(),
            ws@ == entry_widths(k),
            f == (|e: (u32, u32, u32)| entry_bytes(k, e)),
            data@ == old(data)@ + concat_map(es@.take(i as int), f),
        decreases es.len() - i,
    {
        let e = es[i];
        proof {
            lemma_concat_push(es@.take(i as int), e, f);
            assert(es@.take(i as int).push(e) =~= es@.take(i + 1));
        }
        let cs = [e.0, e.1];
        push_fields(data, &cs, ws.as_slice());
        assert(cs@ =~= seq![e.0, e.1]);
        push_u32(data, e.2);
        i += 1;
    }
    assert(es@.take(es@.len() as int) =~= es@);
}

fn push_row(data: &mut Vec<u8>, k: TableKind, r: &CountRow)
    ensures
        final(data)@ == old(data)@ + row_bytes(k, row_view(*r)),
{
    let ws = key_layout(k);
    let cs = [r.key.0, r.key.1, r.key.2];
    assert(cs@ =~= cells(r.key));
    push_fields(data, &cs, ws.as_slice());
    push_u32(data, r.total);
    push_u32(data, r.entries.len() as u32);
    push_entries(data, k, r.entries.as_slice());
    assert(data@ =~= old(data)@ + row_bytes(k, row_view(*r)));
}

/// Appends the table's record: the row count (as `u32`) and each row.
pub fn write_table(data: &mut Vec<u8>, k: TableKind, rows: &[CountRow])
    ensures
        final(data)@ == old(data)@ + table_bytes(k, rows_view(rows@)),
{
    let ghost f = |r: RowView| row_bytes(k, r);
    push_u32(data, rows.len() as u32);
    let ghost start = data@;
    let mut i: usize = 0;
    while i < rows.len()
        invariant
            i <= rows@.len(),
            f == (|r: RowView| row_bytes(k, r)),
            data@ == start + concat_map(rows_view(rows@).take(i as int), f),
        decreases rows.len() - i,
    {
        proof {
            lemma_concat_push(rows_view(rows@).take(i as int), row_view(rows@[i as int]), f);
            assert(rows_view(rows@).take(i as int).push(row_view(rows@[i as int])) =~= rows_view(rows@).take(i + 1));
        }
        push_row(data, k, &rows[i]);
        i += 1;
    }
    assert(rows_view(rows@).take(rows@.len() as int) =~= rows_view(rows@));
    assert(data@ =~= old(data)@ + table_bytes(k, rows_view(rows@)));
}


// ───────────────────────── reading ─────────────────────────

/// `n` things read one after another by `f`, starting at `p`.
pub open spec fn read_seq<T>(p: int, n: nat, f: spec_fn(int) -> Option<(T, int)>) -> Option<(Seq<T>, int)>
    decreases n,
{
    if n == 0 {
        Some((Seq::empty(), p))
    } else {
        match f(p) {
            Some((v, q)) => match read_seq(q, (n - 1) as nat, f) {
                Some((rest, r)) => Some((seq![v] + rest, r)),
                None => None,
            },
            None => None,
        }
    }
}

/// The field of width `w` at `p`.
pub open spec fn read_cell(d: Seq<u8>, p: int, w: Width) -> Option<(u32, int)> {
    if 0 <= p && p + width_len(w) <= d.len() {
        let v: u32 = match w {
            Width::One => d[p] as u32,
            Width::Two => spec_u16_from_le_bytes(d.subrange(p, p + 2)) as u32,
            Width::Four => spec_u32_from_le_bytes(d.subrange(p, p + 4)),
        };
        Some((v, p + width_len(w)))
    } else {
        None
    }
}

/// Fields of the widths `ws`, one after another.
pub open spec fn read_fields(d: Seq<u8>, p: int, ws: Seq<Width>) -> Option<(Seq<u32>, int)>
    decreases ws.len(),
{
    if ws.len() == 0 {
        Some((Seq::empty(), p))
    } else {
        match read_cell(d, p, ws[0]) {
            Some((v, q)) => match read_fields(d, q, ws.drop_first()) {
                Some((rest, r)) => Some((seq![v] + rest, r)),
                None => None,
            },
            None => None,
        }
    }
}

/// The `i`-th value of `s`, or 0 past its end.
pub open spec fn slot(s: Seq<u32>, i: int) -> u32 {
    if 0 <= i < s.len() {
        s[i]
    } else {
        0
    }
}

pub open spec fn read_entry(d: Seq<u8>, p: int, k: TableKind) -> Option<((u32, u32, u32), int)> {
    match read_fields(d, p, entry_widths(k)) {
        Some((f, q)) => match rd_u32(d, q) {
            Some((c, r)) => Some(((slot(f, 0), slot(f, 1), c), r)),
            None => None,
        },
        None => None,
    }
}

pub open spec fn entry_reader(d: Seq<u8>, k: TableKind) -> spec_fn(int) -> Option<((u32, u32, u32), int)> {
    |x: int| read_entry(d, x, k)
}

pub open spec fn read_row(d: Seq<u8>, p: int, k: TableKind) -> Option<(RowView, int)> {
    match read_fields(d, p, key_widths(k)) {
        Some((f, q)) => match rd_u32(d, q) {
            Some((total, q2)) => match rd_u32(d, q2) {
                Some((n, q3)) => match read_seq(q3, n as nat, entry_reader(d, k)) {
                    Some((es, r)) => Some((((slot(f, 0), slot(f, 1), slot(f, 2)), total, es), r)),
                    None => None,
                },
                None => None,
            },
            None => None,
        },
        None => None,
    }
}

pub open spec fn row_reader(d: Seq<u8>, k: TableKind) -> spec_fn(int) -> Option<(RowView, int)> {
    |x: int| read_row(d, x, k)
}

/// A table record at `p`: its rows and the position after it, or `None`
/// when the bytes end inside it.
pub open spec fn read_table_spec(d: Seq<u8>, p: int, k: TableKind) -> Option<(Seq<RowView>, int)> {
    match rd_u32(d, p) {
        Some((n, q)) => read_seq(q, n as nat, row_reader(d, k)),
        None => None,
    }
}

proof fn lemma_fields_step(d: Seq<u8>, q: int, ws: Seq<Width>, v: u32, q2: int)
    requires
        ws.len() > 0,
        read_cell(d, q, ws[0]) == Some((v, q2)),
    ensures
        read_fields(d, q, ws) == (match read_fields(d, q2, ws.drop_first()) {
            Some((rest, e)) => Some((seq![v] + rest, e)),
            None => None,
        }),
{
}

pub(crate) fn get_cell(d: &[u8], p: usize, w: Width) -> (r: Option<(u32, usize)>)
    ensures
        match r {
            Some((v, q)) => read_cell(d@, p as int, w) == Some((v, q as int)),
            None => read_cell(d@, p as int, w) is None,
        },
{
    let n = d.len();
    match w {
        Width::One => if p < n {
            Some((d[p] as u32, p + 1))
        } else {
            None
        },
        Width::Two => if p <= n && 2 <= n - p {
            Some((u16_from_le_bytes(vstd::slice::slice_subrange(d, p, p + 2)) as u32, p + 2))
        } else {
            None
        },
        Width::Four => get_word(d, p),
    }
}

pub(crate) fn get_word(d: &[u8], p: usize) -> (r: Option<(u32, usize)>)
    ensures
        match r {
            Some((x, q)) => rd_u32(d@, p as int) == Some((x, q as int)),
            None => rd_u32(d@, p as int) is None,
        },
{
    let n = d.len();
    if p <= n && 4 <= n - p {
        Some((u32_from_le_bytes(vstd::slice::slice_subrange(d, p, p + 4)), p + 4))
    } else {
        None
    }
}

fn get_fields(d: &[u8], p: usize, ws: &[Width]) -> (r: Option<(Vec<u32>, usize)>)
    ensures
        match r {
            Some((v, q)) => read_fields(d@, p as int, ws@) == Some((v@, q as int)),
            None => read_fields(d@, p as int, ws@) is None,
        },
{
    let mut out: Vec<u32> = Vec::new();
    let mut q = p;
    let mut i: usize = 0;
    assert(ws@.skip(0) =~= ws@);
    while i < ws.len()
        invariant
            i <= ws@.len(),
            read_fields(d@, p as int, ws@) == (match read_fields(d@, q as int, ws@.skip(i as int)) {
                Some((rest, e)) => Some((out@ + rest, e)),
                None => None,
            }),
        decreases ws.len() - i,
    {
        assert(ws@.skip(i as int).drop_first() =~= ws@.skip(i + 1));
        assert(ws@.skip(i as int)[0] == ws@[i as int]);
        match get_cell(d, q, ws[i]) {
            Some((v, q2)) => {
                proof {
                    lemma_fields_step(d@, q as int, ws@.skip(i as int), v, q2 as int);
                    match read_fields(d@, q2 as int, ws@.skip(i + 1)) {
                        Some((rest, e)) => {
                            assert(out@ + (seq![v] + rest) =~= out@.push(v) + rest);
                        },
                        None => {},
                    }
                }
                out.push(v);
                q = q2;
            },
            None => return None,
        }
        i += 1;
    }
    assert(ws@.skip(i as int).len() == 0);
    assert(out@ + Seq::<u32>::empty() =~= out@);
    Some((out, q))
}

fn slot_exec(v: &Vec<u32>, i: usize) -> (x: u32)
    ensures
        x == slot(v@, i as int),
{
    if i < v.len() {
        v[i]
    } else {
        0
    }
}

fn get_entry(d: &[u8], p: usize, ws: &Vec<Width>, k: TableKind) -> (r: Option<((u32, u32, u32), usize)>)
    requires
        ws@ == entry_widths(k),
    ensures
        match r {
            Some((e, q)) => read_entry(d@, p as int, k) == Some((e, q as int)),
            None => read_entry(d@, p as int, k) is None,
        },
{
    match get_fields(d, p, ws.as_slice()) {
        Some((f, q)) => match get_word(d, q) {
            Some((c, q2)) => Some(((slot_exec(&f, 0), slot_exec(&f, 1), c), q2)),
            None => None,
        },
        None => None,
    }
}


pub(crate) proof fn lemma_seq_step<T>(p: int, n: nat, f: spec_fn(int) -> Option<(T, int)>, v: T, q: int)
    requires
        n > 0,
        f(p) == Some((v, q)),
    ensures
        read_seq(p, n, f) == (match read_seq(q, (n - 1) as nat, f) {
            Some((rest, e)) => Some((seq![v] + rest, e)),
            None => None,
        }),
{
}

fn get_entries(d: &[u8], p: usize, n: u32, ws: &Vec<Width>, k: TableKind) -> (r: Option<(Vec<(u32, u32, u32)>, usize)>)
    requires
        ws@ == entry_widths(k),
    ensures
        match r {
            Some((v, q)) => read_seq(p as int, n as nat, entry_reader(d@, k)) == Some((v@, q as int)),
            None => read_seq(p as int, n as nat, entry_reader(d@, k)) is None,
        },
{
    let ghost f = entry_reader(d@, k);
    let mut out: Vec<(u32, u32, u32)> = Vec::new();
    let mut q = p;
    let mut i: u32 = 0;
    while i < n
        invariant
            i <= n,
            ws@ == entry_widths(k),
            f == entry_reader(d@, k),
            read_seq(p as int, n as nat, f) == (match read_seq(q as int, (n - i) as nat, f) {
                Some((rest, e)) => Some((out@ + rest, e)),
                None => None,
            }),
        decreases n - i,
    {
        match get_entry(d, q, ws, k) {
            Some((e, q2)) => {
                proof {
                    lemma_seq_step(q as int, (n - i) as nat, f, e, q2 as int);
                    match read_seq(q2 as int, (n - i - 1) as nat, f) {
                        Some((rest, x)) => {
                            assert(out@ + (seq![e] + rest) =~= out@.push(e) + rest);
                        },
                        None => {},
                    }
                }
                out.push(e);
                q = q2;
            },
            None => {
                assert(f(q as int) is None);
                return None;
            },
        }
        i += 1;
    }
    assert(out@ + Seq::<(u32, u32, u32)>::empty() =~= out@);
    Some((out, q))
}

fn get_row(d: &[u8], p: usize, kw: &Vec<Width>, ew: &Vec<Width>, k: TableKind) -> (r: Option<(CountRow, usize)>)
    requires
        kw@ == key_widths(k),
        ew@ == entry_widths(k),
    ensures
        match r {
            Some((row, q)) => read_row(d@, p as int, k) == Some((row_view(row), q as int)),
            None => read_row(d@, p as int, k) is None,
        },
{
    let (f, q) = match get_fields(d, p, kw.as_slice()) {
        Some(x) => x,
        None => return None,
    };
    let (total, q2) = match get_word(d, q) {
        Some(x) => x,
        None => return None,
    };
    let (n, q3) = match get_word(d, q2) {
        Some(x) => x,
        None => return None,
    };
    let (entries, q4) = match get_entries(d, q3, n, ew, k) {
        Some(x) => x,
        None => return None,
    };
    let key = (slot_exec(&f, 0), slot_exec(&f, 1), slot_exec(&f, 2));
    Some((CountRow { key, total, entries }, q4))
}

/// Reads a table record at `off` (see `read_table_spec`): its rows and the
/// position after it, or `None` when the bytes end inside it.
pub fn read_table(d: &[u8], off: usize, k: TableKind) -> (r: Option<(Vec<CountRow>, usize)>)
    ensures
        match r {
            Some((rows, q)) => read_table_spec(d@, off as int, k) == Some((rows_view(rows@), q as int)),
            None => read_table_spec(d@, off as int, k) is None,
        },
{
    let kw = key_layout(k);
    let ew = entry_layout(k);
    let (n, p) = match get_word(d, off) {
        Some(x) => x,
        None => return None,
    };
    let ghost f = row_reader(d@, k);
    let mut out: Vec<CountRow> = Vec::new();
    let mut q = p;
    let mut i: u32 = 0;
    while i < n
        invariant
            i <= n,
            kw@ == key_widths(k),
            ew@ == entry_widths(k),
            f == row_reader(d@, k),
            rd_u32(d@, off as int) == Some((n, p as int)),
            read_seq(p as int, n as nat, f) == (match read_seq(q as int, (n - i) as nat, f) {
                Some((rest, e)) => Some((rows_view(out@) + rest, e)),
                None => None,
            }),
        decreases n - i,
    {
        match get_row(d, q, &kw, &ew, k) {
            Some((row, q2)) => {
                proof {
                    lemma_seq_step(q as int, (n - i) as nat, f, row_view(row), q2 as int);
                    match read_seq(q2 as int, (n - i - 1) as nat, f) {
                        Some((rest, x)) => {
                            assert(rows_view(out@) + (seq![row_view(row)] + rest) =~= rows_view(out@.push(row)) + rest);
                        },
                        None => {},
                    }
                }
                out.push(row);
                q = q2;
            },
            None => {
                assert(f(q as int) is None);
                return None;
            },
        }
        i += 1;
    }
    assert(rows_view(out@) + Seq::<RowView>::empty() =~= rows_view(out@));
    Some((out, q))
}


// ───────────────────────── reading back what was written ─────────────────────────

/// The first `ws.len()` values of `c` fit their widths and the rest of
/// `c` is zero.
pub open spec fn fields_fit(c: Seq<u32>, ws: Seq<Width>) -> bool {
    &&& ws.len() <= c.len()
    &&& forall|i: int| 0 <= i < ws.len() ==> cell_fits(#[trigger] c[i], ws[i])
    &&& forall|i: int| ws.len() <= i < c.len() ==> #[trigger] c[i] == 0
}

/// A row the record holds exactly: its key and entry fields fit the
/// table's layout and its entry count fits a `u32`.
pub open spec fn storable_row(k: TableKind, r: RowView) -> bool {
    &&& fields_fit(cells(r.0), key_widths(k))
    &&& r.2.len() <= u32::MAX
    &&& forall|j: int| 0 <= j < r.2.len() ==> fields_fit(seq![(#[trigger] r.2[j]).0, r.2[j].1], entry_widths(k))
}

pub open spec fn storable_table(k: TableKind, rows: Seq<RowView>) -> bool {
    &&& rows.len() <= u32::MAX
    &&& forall|i: int| 0 <= i < rows.len() ==> storable_row(k, #[trigger] rows[i])
}

pub(crate) proof fn lemma_read_cell(d: Seq<u8>, p: int, v: u32, w: Width)
    requires
        at(d, p, cell_bytes(v, w)),
        cell_fits(v, w),
    ensures
        cell_bytes(v, w).len() == width_len(w),
        read_cell(d, p, w) == Some((v, p + width_len(w))),
{
    match w {
        Width::One => {
            assert(d.subrange(p, p + 1)[0] == d[p]);
        },
        Width::Two => {
            lemma_read_u16(d, p, v as u16);
            assert(d.subrange(p, p + 2) == spec_u16_to_le_bytes(v as u16));
        },
        Width::Four => {
            lemma_read_u32(d, p, v);
            assert(d.subrange(p, p + 4) == spec_u32_to_le_bytes(v));
        },
    }
}

proof fn lemma_read_fields(d: Seq<u8>, p: int, c: Seq<u32>, ws: Seq<Width>)
    requires
        at(d, p, fields_bytes(c, ws)),
        ws.len() <= c.len(),
        forall|i: int| 0 <= i < ws.len() ==> cell_fits(#[trigger] c[i], ws[i]),
    ensures
        read_fields(d, p, ws) == Some((c.take(ws.len() as int), p + fields_bytes(c, ws).len())),
    decreases ws.len(),
{
    if ws.len() == 0 {
        assert(c.take(0) =~= Seq::<u32>::empty());
    } else {
        let head = cell_bytes(c[0], ws[0]);
        let tail = fields_bytes(c.drop_first(), ws.drop_first());
        lemma_at_concat(d, p, head, tail);
        assert(cell_fits(c[0], ws[0]));
        lemma_read_cell(d, p, c[0], ws[0]);
        assert forall|i: int| 0 <= i < ws.drop_first().len() implies cell_fits(
            #[trigger] c.drop_first()[i],
            ws.drop_first()[i],
        ) by {
            assert(cell_fits(c[i + 1], ws[i + 1]));
        }
        lemma_read_fields(d, p + head.len(), c.drop_first(), ws.drop_first());
        assert(seq![c[0]] + c.drop_first().take(ws.len() - 1) =~= c.take(ws.len() as int));
    }
}

proof fn lemma_slots(c: Seq<u32>, ws: Seq<Width>)
    requires
        fields_fit(c, ws),
        c.len() == 3 || c.len() == 2,
    ensures
        slot(c.take(ws.len() as int), 0) == c[0],
        slot(c.take(ws.len() as int), 1) == c[1],
        c.len() == 3 ==> slot(c.take(ws.len() as int), 2) == c[2],
{
}

proof fn lemma_read_entry(d: Seq<u8>, p: int, k: TableKind, e: (u32, u32, u32))
    requires
        at(d, p, entry_bytes(k, e)),
        fields_fit(seq![e.0, e.1], entry_widths(k)),
    ensures
        read_entry(d, p, k) == Some((e, p + entry_bytes(k, e).len())),
{
    let c = seq![e.0, e.1];
    let fb = fields_bytes(c, entry_widths(k));
    lemma_at_concat(d, p, fb, spec_u32_to_le_bytes(e.2));
    lemma_read_fields(d, p, c, entry_widths(k));
    lemma_read_u32(d, p + fb.len(), e.2);
    lemma_slots(c, entry_widths(k));
    assert(d.subrange(p + fb.len(), p + fb.len() + 4) == spec_u32_to_le_bytes(e.2));
}

proof fn lemma_read_entries(d: Seq<u8>, p: int, k: TableKind, es: Seq<(u32, u32, u32)>)
    requires
        at(d, p, concat_map(es, |e: (u32, u32, u32)| entry_bytes(k, e))),
        forall|j: int| 0 <= j < es.len() ==> fields_fit(seq![(#[trigger] es[j]).0, es[j].1], entry_widths(k)),
    ensures
        read_seq(p, es.len(), entry_reader(d, k)) == Some(
            (es, p + concat_map(es, |e: (u32, u32, u32)| entry_bytes(k, e)).len()),
        ),
    decreases es.len(),
{
    let f = |e: (u32, u32, u32)| entry_bytes(k, e);
    if es.len() == 0 {
        assert(es =~= Seq::<(u32, u32, u32)>::empty());
    } else {
        let tail = es.subrange(1, es.len() as int);
        lemma_at_concat(d, p, f(es[0]), concat_map(tail, f));
        assert(fields_fit(seq![es[0].0, es[0].1], entry_widths(k)));
        lemma_read_entry(d, p, k, es[0]);
        assert forall|j: int| 0 <= j < tail.len() implies fields_fit(
            seq![(#[trigger] tail[j]).0, tail[j].1],
            entry_widths(k),
        ) by {
            assert(fields_fit(seq![es[j + 1].0, es[j + 1].1], entry_widths(k)));
        }
        lemma_read_entries(d, p + entry_bytes(k, es[0]).len(), k, tail);
        assert(seq![es[0]] + tail =~= es);
    }
}

proof fn lemma_read_row(d: Seq<u8>, p: int, k: TableKind, r: RowView)
    requires
        at(d, p, row_bytes(k, r)),
        storable_row(k, r),
    ensures
        read_row(d, p, k) == Some((r, p + row_bytes(k, r).len())),
{
    let c = cells(r.0);
    let fb = fields_bytes(c, key_widths(k));
    let tb = spec_u32_to_le_bytes(r.1);
    let nb = spec_u32_to_le_bytes(r.2.len() as u32);
    let eb = concat_map(r.2, |e: (u32, u32, u32)| entry_bytes(k, e));
    vstd::bytes::lemma_auto_spec_u32_to_from_le_bytes();
    assert(row_bytes(k, r) =~= fb + (tb + (nb + eb)));
    lemma_at_concat(d, p, fb, tb + (nb + eb));
    lemma_at_concat(d, p + fb.len(), tb, nb + eb);
    lemma_at_concat(d, p + fb.len() + 4, nb, eb);
    lemma_read_fields(d, p, c, key_widths(k));
    lemma_slots(c, key_widths(k));
    lemma_read_u32(d, p + fb.len(), r.1);
    lemma_read_u32(d, p + fb.len() + 4, r.2.len() as u32);
    assert(d.subrange(p + fb.len(), p + fb.len() + 4) == tb);
    assert(d.subrange(p + fb.len() + 4, p + fb.len() + 8) == nb);
    lemma_read_entries(d, p + fb.len() + 8, k, r.2);
}

proof fn lemma_read_rows(d: Seq<u8>, p: int, k: TableKind, rows: Seq<RowView>)
    requires
        at(d, p, concat_map(rows, |r: RowView| row_bytes(k, r))),
        forall|i: int| 0 <= i < rows.len() ==> storable_row(k, #[trigger] rows[i]),
    ensures
        read_seq(p, rows.len(), row_reader(d, k)) == Some(
            (rows, p + concat_map(rows, |r: RowView| row_bytes(k, r)).len()),
        ),
    decreases rows.len(),
{
    let f = |r: RowView| row_bytes(k, r);
    if rows.len() == 0 {
        assert(rows =~= Seq::<RowView>::empty());
    } else {
        let tail = rows.subrange(1, rows.len() as int);
        lemma_at_concat(d, p, f(rows[0]), concat_map(tail, f));
        lemma_read_row(d, p, k, rows[0]);
        assert forall|i: int| 0 <= i < tail.len() implies storable_row(k, #[trigger] tail[i]) by {
            assert(storable_row(k, rows[i + 1]));
        }
        lemma_read_rows(d, p + row_bytes(k, rows[0]).len(), k, tail);
        assert(seq![rows[0]] + tail =~= rows);
    }
}

/// Reading a table record gives back the rows it was written from,
/// whatever precedes and follows it, when every field fits its width.
pub proof fn lemma_table_roundtrip(k: TableKind, rows: Seq<RowView>, pre: Seq<u8>, rest: Seq<u8>)
    requires
        storable_table(k, rows),
    ensures
        read_table_spec(pre + table_bytes(k, rows) + rest, pre.len() as int, k) == Some(
            (rows, (pre.len() + table_bytes(k, rows).len()) as int),
        ),
{
    let d = pre + table_bytes(k, rows) + rest;
    let p = pre.len() as int;
    let nb = spec_u32_to_le_bytes(rows.len() as u32);
    let rb = concat_map(rows, |r: RowView| row_bytes(k, r));
    assert(d.subrange(p, p + (nb + rb).len()) =~= nb + rb);
    lemma_at_concat(d, p, nb, rb);
    lemma_read_u32(d, p, rows.len() as u32);
    assert(d.subrange(p, p + 4) == nb);
    lemma_read_rows(d, p + 4, k, rows);
}


// ───────────────────────── id tables ─────────────────────────

/// A pair as stored: the id (`u32`) and the value in width `w`.
pub open spec fn pair_bytes(p: (u32, u32), w: Width) -> Seq<u8> {
    spec_u32_to_le_bytes(p.0) + cell_bytes(p.1, w)
}

/// An id table as stored: its length (`u32`) and its pairs.
pub open spec fn pairs_bytes(ps: Seq<(u32, u32)>, w: Width) -> Seq<u8> {
    spec_u32_to_le_bytes(ps.len() as u32) + concat_map(ps, |p: (u32, u32)| pair_bytes(p, w))
}

pub open spec fn read_pair(d: Seq<u8>, p: int, w: Width) -> Option<((u32, u32), int)> {
    match rd_u32(d, p) {
        Some((a, q)) => match read_cell(d, q, w) {
            Some((b, r)) => Some(((a, b), r)),
            None => None,
        },
        None => None,
    }
}

pub open spec fn pair_reader(d: Seq<u8>, w: Width) -> spec_fn(int) -> Option<((u32, u32), int)> {
    |x: int| read_pair(d, x, w)
}

/// An id table at `p`, or `None` when the bytes end inside it.
pub open spec fn read_pairs_spec(d: Seq<u8>, p: int, w: Width) -> Option<(Seq<(u32, u32)>, int)> {
    match rd_u32(d, p) {
        Some((n, q)) => read_seq(q, n as nat, pair_reader(d, w)),
        None => None,
    }
}

/// The pairs one after another, without their count.
pub(crate) fn push_pair_list(data: &mut Vec<u8>, ps: &[(u32, u32)], w: Width)
    ensures
        final(data)@ == old(data)@ + concat_map(ps@, |p: (u32, u32)| pair_bytes(p, w)),
{
    let ghost f = |p: (u32, u32)| pair_bytes(p, w);
    let mut i: usize = 0;
    while i < ps.len()
        invariant
            i <= ps@.len(),
            f == (|p: (u32, u32)| pair_bytes(p, w)),
            data@ == old(data)@ + concat_map(ps@.take(i as int), f),
        decreases ps.len() - i,
    {
        proof {
            lemma_concat_push(ps@.take(i as int), ps@[i as int], f);
            assert(ps@.take(i as int).push(ps@[i as int]) =~= ps@.take(i + 1));
        }
        let ghost before = data@;
        push_u32(data, ps[i].0);
        push_cell(data, ps[i].1, w);
        assert(data@ =~= before + pair_bytes(ps@[i as int], w));
        i += 1;
    }
    assert(ps@.take(ps@.len() as int) =~= ps@);
}

/// Appends the id table's record (see `pairs_bytes`).
pub fn write_pairs(data: &mut Vec<u8>, ps: &[(u32, u32)], w: Width)
    ensures
        final(data)@ == old(data)@ + pairs_bytes(ps@, w),
{
    push_u32(data, ps.len() as u32);
    push_pair_list(data, ps, w);
    assert(data@ =~= old(data)@ + pairs_bytes(ps@, w));
}

/// `n` pairs read one after another from `p`.
pub(crate) fn get_pair_list(d: &[u8], p: usize, n: u32, w: Width) -> (r: Option<(Vec<(u32, u32)>, usize)>)
    ensures
        match r {
            Some((ps, q)) => read_seq(p as int, n as nat, pair_reader(d@, w)) == Some((ps@, q as int))
                && (q == p || q <= d@.len()),
            None => read_seq(p as int, n as nat, pair_reader(d@, w)) is None,
        },
{
    let ghost f = pair_reader(d@, w);
    let mut out: Vec<(u32, u32)> = Vec::new();
    let mut q = p;
    let mut i: u32 = 0;
    while i < n
        invariant
            i <= n,
            q == p || q <= d@.len(),
            f == pair_reader(d@, w),
            read_seq(p as int, n as nat, f) == (match read_seq(q as int, (n - i) as nat, f) {
                Some((rest, e)) => Some((out@ + rest, e)),
                None => None,
            }),
        decreases n - i,
    {
        let (a, q1) = match get_word(d, q) {
            Some(x) => x,
            None => {
                assert(f(q as int) is None);
                return None;
            },
        };
        let (b, q2) = match get_cell(d, q1, w) {
            Some(x) => x,
            None => {
                assert(f(q as int) is None);
                return None;
            },
        };
        proof {
            lemma_seq_step(q as int, (n - i) as nat, f, (a, b), q2 as int);
            match read_seq(q2 as int, (n - i - 1) as nat, f) {
                Some((rest, x)) => {
                    assert(out@ + (seq![(a, b)] + rest) =~= out@.push((a, b)) + rest);
                },
                None => {},
            }
        }
        out.push((a, b));
        q = q2;
        i += 1;
    }
    assert(out@ + Seq::<(u32, u32)>::empty() =~= out@);
    Some((out, q))
}

/// Reads an id table at `off` (see `read_pairs_spec`).
pub fn read_pairs(d: &[u8], off: usize, w: Width) -> (r: Option<(Vec<(u32, u32)>, usize)>)
    ensures
        match r {
            Some((ps, q)) => read_pairs_spec(d@, off as int, w) == Some((ps@, q as int)),
            None => read_pairs_spec(d@, off as int, w) is None,
        },
{
    match get_word(d, off) {
        Some((n, p)) => get_pair_list(d, p, n, w),
        None => None,
    }
}

pub(crate) proof fn lemma_read_pairs(d: Seq<u8>, p: int, w: Width, ps: Seq<(u32, u32)>)
    requires
        at(d, p, concat_map(ps, |x: (u32, u32)| pair_bytes(x, w))),
        forall|i: int| 0 <= i < ps.len() ==> cell_fits((#[trigger] ps[i]).1, w),
    ensures
        read_seq(p, ps.len(), pair_reader(d, w)) == Some(
            (ps, p + concat_map(ps, |x: (u32, u32)| pair_bytes(x, w)).len()),
        ),
    decreases ps.len(),
{
    let f = |x: (u32, u32)| pair_bytes(x, w);
    if ps.len() == 0 {
        assert(ps =~= Seq::<(u32, u32)>::empty());
    } else {
        let tail = ps.subrange(1, ps.len() as int);
        vstd::bytes::lemma_auto_spec_u32_to_from_le_bytes();
        lemma_at_concat(d, p, f(ps[0]), concat_map(tail, f));
        lemma_at_concat(d, p, spec_u32_to_le_bytes(ps[0].0), cell_bytes(ps[0].1, w));
        lemma_read_u32(d, p, ps[0].0);
        assert(d.subrange(p, p + 4) == spec_u32_to_le_bytes(ps[0].0));
        assert(cell_fits(ps[0].1, w));
        lemma_read_cell(d, p + 4, ps[0].1, w);
        assert forall|i: int| 0 <= i < tail.len() implies cell_fits((#[trigger] tail[i]).1, w) by {
            assert(cell_fits(ps[i + 1].1, w));
        }
        lemma_read_pairs(d, p + pair_bytes(ps[0], w).len(), w, tail);
        assert(seq![ps[0]] + tail =~= ps);
    }
}

/// Reading an id table gives back the pairs it was written from, whatever
/// precedes and follows it, when every value fits the width.
pub proof fn lemma_pairs_roundtrip(ps: Seq<(u32, u32)>, w: Width, pre: Seq<u8>, rest: Seq<u8>)
    requires
        ps.len() <= u32::MAX,
        forall|i: int| 0 <= i < ps.len() ==> cell_fits((#[trigger] ps[i]).1, w),
    ensures
        read_pairs_spec(pre + pairs_bytes(ps, w) + rest, pre.len() as int, w) == Some(
            (ps, (pre.len() + pairs_bytes(ps, w).len()) as int),
        ),
{
    let d = pre + pairs_bytes(ps, w) + rest;
    let p = pre.len() as int;
    let nb = spec_u32_to_le_bytes(ps.len() as u32);
    let rb = concat_map(ps, |x: (u32, u32)| pair_bytes(x, w));
    assert(d.subrange(p, p + (nb + rb).len()) =~= nb + rb);
    lemma_at_concat(d, p, nb, rb);
    lemma_read_u32(d, p, ps.len() as u32);
    assert(d.subrange(p, p + 4) == nb);
    lemma_read_pairs(d, p + 4, w, ps);
}


// ───────────────────────── the flat form ─────────────────────────

/// A table entry with its row's key: the key and the entry.
pub type FlatEntry = ((u32, u32, u32), (u32, u32, u32));

/// Each entry of each row, with its row's key, in order.
pub open spec fn flat_pairs(rows: Seq<RowView>) -> Seq<FlatEntry>
    decreases rows.len(),
{
    if rows.len() == 0 {
        Seq::empty()
    } else {
        flat_pairs(rows.drop_last()) + tagged(rows.last())
    }
}

pub open spec fn tagged(r: RowView) -> Seq<FlatEntry> {
    r.2.map_values(|e: (u32, u32, u32)| (r.0, e))
}

/// How many 4-byte cells a flat record of the table has.
pub open spec fn flat_cols(k: TableKind) -> nat {
    key_widths(k).len() + entry_widths(k).len() + 1
}

/// The cells of a flat record: the key fields, the entry fields and the
/// count.
pub open spec fn flat_cells(k: TableKind, x: FlatEntry) -> Seq<u32> {
    cells(x.0).take(key_widths(k).len() as int) + seq![x.1.0, x.1.1].take(entry_widths(k).len() as int)
        + seq![x.1.2]
}

pub open spec fn flat_record(k: TableKind, x: FlatEntry) -> Seq<u8> {
    concat_map(flat_cells(k, x), |v: u32| spec_u32_to_le_bytes(v))
}

/// A table's flat section: one record of 4-byte cells per entry.
pub open spec fn flat_bytes(k: TableKind, rows: Seq<RowView>) -> Seq<u8> {
    concat_map(flat_pairs(rows), |x: FlatEntry| flat_record(k, x))
}

fn push_words(data: &mut Vec<u8>, xs: &[u32])
    ensures
        final(data)@ == old(data)@ + concat_map(xs@, |v: u32| spec_u32_to_le_bytes(v)),
{
    let ghost f = |v: u32| spec_u32_to_le_bytes(v);
    let mut i: usize = 0;
    while i < xs.len()
        invariant
            i <= xs@.len(),
            f == (|v: u32| spec_u32_to_le_bytes(v)),
            data@ == old(data)@ + concat_map(xs@.take(i as int), f),
        decreases xs.len() - i,
    {
        proof {
            lemma_concat_push(xs@.take(i as int), xs@[i as int], f);
            assert(xs@.take(i as int).push(xs@[i as int]) =~= xs@.take(i + 1));
        }
        push_u32(data, xs[i]);
        i += 1;
    }
    assert(xs@.take(xs@.len() as int) =~= xs@);
}

fn flat_cells_exec(nk: usize, ne: usize, key: (u32, u32, u32), e: (u32, u32, u32)) -> (v: Vec<u32>)
    requires
        1 <= nk <= 3,
        1 <= ne <= 2,
    ensures
        v@ == cells(key).take(nk as int) + seq![e.0, e.1].take(ne as int) + seq![e.2],
{
    let mut v: Vec<u32> = Vec::new();
    v.push(key.0);
    if nk > 1 {
        v.push(key.1);
    }
    if nk > 2 {
        v.push(key.2);
    }
    v.push(e.0);
    if ne > 1 {
        v.push(e.1);
    }
    v.push(e.2);
    assert(v@ =~= cells(key).take(nk as int) + seq![e.0, e.1].take(ne as int) + seq![e.2]);
    v
}

/// The table's flat section (see `flat_bytes`).
pub fn write_flat(k: TableKind, rows: &[CountRow]) -> (data: Vec<u8>)
    ensures
        data@ == flat_bytes(k, rows_view(rows@)),
{
    let nk = key_layout(k).len();
    let ne = entry_layout(k).len();
    let ghost f = |x: FlatEntry| flat_record(k, x);
    let ghost rv = rows_view(rows@);
    let mut data: Vec<u8> = Vec::new();
    let mut i: usize = 0;
    assert(rv.take(0) =~= Seq::<RowView>::empty());
    while i < rows.len()
        invariant
            i <= rows@.len(),
            nk == key_widths(k).len(),
            ne == entry_widths(k).len(),
            f == (|x: FlatEntry| flat_record(k, x)),
            rv == rows_view(rows@),
            data@ == concat_map(flat_pairs(rv.take(i as int)), f),
        decreases rows.len() - i,
    {
        let r = &rows[i];
        let ghost base = flat_pairs(rv.take(i as int));
        let ghost tg = tagged(rv[i as int]);
        let mut j: usize = 0;
        assert(base + tg.take(0) =~= base);
        while j < r.entries.len()
            invariant
                j <= r.entries@.len(),
                r == &rows@[i as int],
                i < rows@.len(),
                nk == key_widths(k).len(),
                ne == entry_widths(k).len(),
                f == (|x: FlatEntry| flat_record(k, x)),
                rv == rows_view(rows@),
                tg == tagged(rv[i as int]),
                data@ == concat_map(base + tg.take(j as int), f),
            decreases r.entries.len() - j,
        {
            let e = r.entries[j];
            proof {
                assert(tg[j as int] == (r.key, e));
                lemma_concat_push(base + tg.take(j as int), tg[j as int], f);
                assert((base + tg.take(j as int)).push(tg[j as int]) =~= base + tg.take(j + 1));
            }
            let cs = flat_cells_exec(nk, ne, r.key, e);
            push_words(&mut data, cs.as_slice());
            j += 1;
        }
        proof {
            assert(tg.take(j as int) =~= tg);
            assert(rv.take(i + 1).drop_last() =~= rv.take(i as int));
            assert(rv.take(i + 1).last() == rv[i as int]);
        }
        i += 1;
    }
    assert(rv.take(rows@.len() as int) =~= rv);
    data
}


/// The low bytes of a value that a field of width `w` keeps.
pub open spec fn truncated(v: u32, w: Width) -> u32 {
    match w {
        Width::One => (v as u8) as u32,
        Width::Two => (v as u16) as u32,
        Width::Four => v,
    }
}

pub open spec fn word_at(d: Seq<u8>, p: int) -> u32 {
    spec_u32_from_le_bytes(d.subrange(p, p + 4))
}

/// Field `t` of a record at `b` whose fields have the widths `ws`: its
/// cell cut to its width, or 0 past the layout.
pub open spec fn flat_field(d: Seq<u8>, b: int, ws: Seq<Width>, t: int) -> u32 {
    if t < ws.len() {
        truncated(word_at(d, b + 4 * t), ws[t])
    } else {
        0
    }
}

/// The `j`-th record of a flat section.
pub open spec fn flat_entry_at(d: Seq<u8>, k: TableKind, j: int) -> FlatEntry {
    let kw = key_widths(k);
    let ew = entry_widths(k);
    let b = j * (4 * flat_cols(k));
    let eb = b + 4 * kw.len();
    (
        (flat_field(d, b, kw, 0), flat_field(d, b, kw, 1), flat_field(d, b, kw, 2)),
        (flat_field(d, eb, ew, 0), flat_field(d, eb, ew, 1), word_at(d, eb + 4 * ew.len())),
    )
}

/// The records of a flat section, as many as it has whole records (a
/// shorter tail is ignored).
pub open spec fn read_flat_spec(d: Seq<u8>, k: TableKind) -> Seq<FlatEntry> {
    Seq::new(d.len() / (4 * flat_cols(k)), |j: int| flat_entry_at(d, k, j))
}

fn word_exec(d: &[u8], p: usize) -> (x: u32)
    requires
        p + 4 <= d@.len(),
    ensures
        x == word_at(d@, p as int),
{
    let _n = d.len();
    u32_from_le_bytes(vstd::slice::slice_subrange(d, p, p + 4))
}

fn truncated_exec(v: u32, w: Width) -> (x: u32)
    ensures
        x == truncated(v, w),
{
    match w {
        Width::One => (v as u8) as u32,
        Width::Two => (v as u16) as u32,
        Width::Four => v,
    }
}

fn flat_field_exec(d: &[u8], b: usize, ws: &Vec<Width>, t: usize) -> (x: u32)
    requires
        t < 3,
        ws@.len() <= 3,
        b + 4 * ws@.len() <= d@.len(),
    ensures
        x == flat_field(d@, b as int, ws@, t as int),
{
    let _n = d.len();
    if t < ws.len() {
        truncated_exec(word_exec(d, b + 4 * t), ws[t])
    } else {
        0
    }
}

/// Reads a table's flat section (see `read_flat_spec`).
pub fn read_flat(d: &[u8], k: TableKind) -> (v: Vec<FlatEntry>)
    ensures
        v@ == read_flat_spec(d@, k),
{
    let kw = key_layout(k);
    let ew = entry_layout(k);
    let size = 4 * (kw.len() + ew.len() + 1);
    let n = d.len();
    let count = n / size;
    let mut out: Vec<FlatEntry> = Vec::new();
    let mut j: usize = 0;
    while j < count
        invariant
            j <= count,
            kw@ == key_widths(k),
            ew@ == entry_widths(k),
            size == 4 * flat_cols(k),
            count as int == d@.len() as int / size as int,
            d@.len() <= usize::MAX,
            out@ == read_flat_spec(d@, k).take(j as int),
        decreases count - j,
    {
        proof {
            let c = count as int;
            let z = size as int;
            let n = d@.len() as int;
            assert(j * z + z <= n) by (nonlinear_arith)
                requires
                    0 <= j < c,
                    c == n / z,
                    z > 0,
                    n >= 0,
            {
                assert(j + 1 <= c);
                assert((j + 1) * z <= c * z);
                assert(c * z <= n);
            }
        }
        let b = j * size;
        let eb = b + 4 * kw.len();
        let x = (
            (flat_field_exec(d, b, &kw, 0), flat_field_exec(d, b, &kw, 1), flat_field_exec(d, b, &kw, 2)),
            (flat_field_exec(d, eb, &ew, 0), flat_field_exec(d, eb, &ew, 1), word_exec(d, eb + 4 * ew.len())),
        );
        assert(x == flat_entry_at(d@, k, j as int));
        out.push(x);
        assert(read_flat_spec(d@, k).take(j + 1) =~= read_flat_spec(d@, k).take(j as int).push(x));
        j += 1;
    }
    assert(read_flat_spec(d@, k).take(count as int) =~= read_flat_spec(d@, k));
    out
}


/// An entry with its key whose fields fit the table's layout.
pub open spec fn flat_fit(k: TableKind, x: FlatEntry) -> bool {
    fields_fit(cells(x.0), key_widths(k)) && fields_fit(seq![x.1.0, x.1.1], entry_widths(k))
}

proof fn lemma_flat_pairs_fit(k: TableKind, rows: Seq<RowView>)
    requires
        forall|i: int| 0 <= i < rows.len() ==> storable_row(k, #[trigger] rows[i]),
    ensures
        forall|i: int| 0 <= i < flat_pairs(rows).len() ==> flat_fit(k, #[trigger] flat_pairs(rows)[i]),
    decreases rows.len(),
{
    if rows.len() > 0 {
        let init = rows.drop_last();
        assert forall|i: int| 0 <= i < init.len() implies storable_row(k, #[trigger] init[i]) by {
            assert(storable_row(k, rows[i]));
        }
        lemma_flat_pairs_fit(k, init);
        let a = flat_pairs(init);
        let t = tagged(rows.last());
        assert(storable_row(k, rows[rows.len() - 1]));
        assert forall|i: int| 0 <= i < flat_pairs(rows).len() implies flat_fit(k, #[trigger] flat_pairs(rows)[i]) by {
            if i < a.len() {
                assert(flat_pairs(rows)[i] == a[i]);
            } else {
                let j = i - a.len();
                assert(flat_pairs(rows)[i] == t[j]);
                assert(fields_fit(seq![(rows.last().2[j]).0, rows.last().2[j].1], entry_widths(k)));
            }
        }
    }
}

pub(crate) proof fn lemma_concat_len<T>(xs: Seq<T>, f: spec_fn(T) -> Seq<u8>, k: nat)
    requires
        forall|x: T| #[trigger] f(x).len() == k,
    ensures
        concat_map(xs, f).len() == k * xs.len(),
    decreases xs.len(),
{
    if xs.len() > 0 {
        lemma_concat_len(xs.subrange(1, xs.len() as int), f, k);
        assert(k * xs.len() == k + k * (xs.len() - 1)) by (nonlinear_arith)
            requires
                xs.len() > 0,
        ;
    }
}

/// Pieces of one length `l` concatenated: piece `j` lies at `j * l`.
proof fn lemma_uniform_piece<T>(xs: Seq<T>, f: spec_fn(T) -> Seq<u8>, l: nat, j: int)
    requires
        forall|x: T| #[trigger] f(x).len() == l,
        0 <= j < xs.len(),
    ensures
        concat_map(xs, f).len() == l * xs.len(),
        j * l + l <= l * xs.len(),
        concat_map(xs, f).subrange(j * l, j * l + l) == f(xs[j]),
    decreases xs.len(),
{
    let tail = xs.subrange(1, xs.len() as int);
    let whole = concat_map(xs, f);
    lemma_concat_len(tail, f, l);
    assert(l * xs.len() == l + l * tail.len()) by (nonlinear_arith)
        requires
            xs.len() == tail.len() + 1,
    ;
    if j == 0 {
        assert(whole.subrange(0, l as int) =~= f(xs[0]));
        assert(0 * l == 0) by (nonlinear_arith);
        assert(l <= l * xs.len()) by (nonlinear_arith)
            requires
                xs.len() >= 1,
        ;
    } else {
        lemma_uniform_piece(tail, f, l, j - 1);
        assert(j * l == (j - 1) * l + l) by (nonlinear_arith);
        assert(whole.subrange(j * l, j * l + l) =~= concat_map(tail, f).subrange((j - 1) * l, (j - 1) * l + l));
        assert(tail[j - 1] == xs[j]);
    }
}

proof fn lemma_flat_record_cells(k: TableKind, x: FlatEntry, t: int)
    requires
        0 <= t < flat_cols(k),
    ensures
        flat_cells(k, x).len() == flat_cols(k),
        flat_record(k, x).len() == 4 * flat_cols(k),
        spec_u32_from_le_bytes(flat_record(k, x).subrange(4 * t, 4 * t + 4)) == flat_cells(k, x)[t],
{
    vstd::bytes::lemma_auto_spec_u32_to_from_le_bytes();
    let f = |v: u32| spec_u32_to_le_bytes(v);
    assert forall|v: u32| #[trigger] f(v).len() == 4 by {}
    let c = flat_cells(k, x);
    assert(c.len() == flat_cols(k));
    lemma_uniform_piece(c, f, 4, t);
    assert(t * 4 == 4 * t) by (nonlinear_arith);
    assert(4 * c.len() == c.len() * 4) by (nonlinear_arith);
    assert(flat_record(k, x) == concat_map(c, f));
    assert(flat_record(k, x).subrange(4 * t, 4 * t + 4) == f(c[t]));
    assert(f(c[t]) == spec_u32_to_le_bytes(c[t]));
    assert(spec_u32_to_le_bytes(c[t]).len() == 4);
    assert(spec_u32_from_le_bytes(spec_u32_to_le_bytes(c[t])) == c[t]);
}

/// A table's flat section holds whole records: `flat_cols` cells of four
/// bytes for each entry.
pub proof fn lemma_flat_bytes_len(k: TableKind, rows: Seq<RowView>)
    ensures
        flat_bytes(k, rows).len() == 4 * flat_cols(k) * flat_pairs(rows).len(),
{
    let f = |x: FlatEntry| flat_record(k, x);
    assert forall|x: FlatEntry| #[trigger] f(x).len() == 4 * flat_cols(k) by {
        lemma_flat_record_cells(k, x, 0);
    }
    lemma_concat_len(flat_pairs(rows), f, 4 * flat_cols(k));
}

/// Reading a table's flat section gives back each entry with its row's
/// key, in order, when every field fits its width.
pub proof fn lemma_flat_roundtrip(k: TableKind, rows: Seq<RowView>)
    requires
        forall|i: int| 0 <= i < rows.len() ==> storable_row(k, #[trigger] rows[i]),
    ensures
        read_flat_spec(flat_bytes(k, rows), k) == flat_pairs(rows),
{
    let xs = flat_pairs(rows);
    let f = |x: FlatEntry| flat_record(k, x);
    let l = 4 * flat_cols(k);
    let d = flat_bytes(k, rows);
    lemma_flat_pairs_fit(k, rows);
    assert forall|x: FlatEntry| #[trigger] f(x).len() == l by {
        lemma_flat_record_cells(k, x, 0);
    }
    lemma_concat_len(xs, f, l);
    assert(d.len() / l == xs.len()) by (nonlinear_arith)
        requires
            d.len() == l * xs.len(),
            l > 0,
    ;
    assert forall|j: int| 0 <= j < xs.len() implies #[trigger] flat_entry_at(d, k, j) == xs[j] by {
        lemma_uniform_piece(xs, f, l, j);
        let b = j * l;
        let x = xs[j];
        let rec = flat_record(k, x);
        let kw = key_widths(k);
        let ew = entry_widths(k);
        assert(flat_fit(k, x));
        assert forall|t: int| 0 <= t < flat_cols(k) implies word_at(d, b + 4 * t) == #[trigger] flat_cells(k, x)[t] by {
            lemma_flat_record_cells(k, x, t);
            assert(d.subrange(b + 4 * t, b + 4 * t + 4) =~= rec.subrange(4 * t, 4 * t + 4));
        }
        let c = flat_cells(k, x);
        assert(c =~= cells(x.0).take(kw.len() as int) + seq![x.1.0, x.1.1].take(ew.len() as int) + seq![x.1.2]);
        assert(b + 4 * kw.len() + 4 * ew.len() == b + 4 * (kw.len() + ew.len() as int));
        assert forall|t: int| 0 <= t < kw.len() implies flat_field(d, b, kw, t) == cells(x.0)[t] by {
            assert(word_at(d, b + 4 * t) == c[t]);
            assert(cell_fits(cells(x.0)[t], kw[t]));
        }
        assert forall|t: int| 0 <= t < ew.len() implies flat_field(d, b + 4 * kw.len(), ew, t) == seq![x.1.0, x.1.1][t] by {
            assert(word_at(d, b + 4 * (kw.len() + t)) == c[kw.len() + t]);
            assert(b + 4 * kw.len() + 4 * t == b + 4 * (kw.len() + t));
            assert(cell_fits(seq![x.1.0, x.1.1][t], ew[t]));
        }
        assert(word_at(d, b + 4 * (kw.len() + ew.len())) == c[(kw.len() + ew.len()) as int]);
        assert(flat_field(d, b, kw, 0) == x.0.0);
        assert(flat_field(d, b, kw, 1) == x.0.1);
        assert(flat_field(d, b, kw, 2) == x.0.2);
        assert(flat_field(d, b + 4 * kw.len(), ew, 0) == x.1.0);
        assert(flat_field(d, b + 4 * kw.len(), ew, 1) == x.1.1);
    }
    assert(read_flat_spec(d, k) =~= xs);
}

} // verus!
