//! Column layout state and the record and aggregate formatters built on it.
use vstd::prelude::*;
use crate::text::{
    clip_lines, clip_text, count_char, count_occurrences, lemma_clip_count,
    lemma_clip_prefix_enough, lemma_clip_whole_piece, lemma_lex_irreflexive, fit, format_with_ellipsis, lemma_lex_total, lemma_lex_transitive, lex_lt, pad_to,
    push_padded, push_spaces, str_less, trim_end, trimmed,
};

verus! {

/// Width budget of an aggregate table when no terminal is attached.
pub const DEFAULT_TABLE_WIDTH: u16 = 240;

/// Rendering options.
pub struct RenderConfig {
    /// Digits after the point when values are rendered to text.
    pub floating_points: usize,
    /// Slack below which a column is widened.
    pub min_buffer: usize,
    /// Slack a column gets when it is widened.
    pub max_buffer: usize,
    /// Template that replaces the columnar layout of records.
    pub format: Option<String>,
}

impl RenderConfig {
    pub fn default() -> (r: Self)
        ensures
            r.floating_points == 2,
            r.min_buffer == 1,
            r.max_buffer == 4,
            r.format is None,
    {
        RenderConfig { floating_points: 2, min_buffer: 1, max_buffer: 4, format: None }
    }
}

/// A named value, already rendered to text.
pub struct Field {
    pub name: String,
    pub value: String,
}

/// One record: its source text and its structured fields (possibly none).
pub struct Record {
    pub raw: String,
    pub fields: Vec<Field>,
}

/// A complete snapshot of a grouped result: display columns and one field list per row.
pub struct Aggregate {
    pub columns: Vec<String>,
    pub rows: Vec<Vec<Field>>,
}

#[derive(Clone, Copy)]
pub struct TerminalSize {
    pub height: u16,
    pub width: u16,
}

/// The width allocated to one column.
pub struct ColumnWidth {
    pub name: String,
    pub width: usize,
}

/// Index of the last entry of `ws` named `n`, or -1.
pub open spec fn find_width(ws: Seq<ColumnWidth>, n: Seq<char>) -> int
    decreases ws.len(),
{
    if ws.len() == 0 {
        -1
    } else if ws.last().name@ == n {
        ws.len() - 1
    } else {
        find_width(ws.drop_last(), n)
    }
}

/// Width recorded for column `n`; zero for a column not tracked.
pub open spec fn width_of(ws: Seq<ColumnWidth>, n: Seq<char>) -> nat {
    let i = find_width(ws, n);
    if i < 0 {
        0
    } else {
        ws[i].width as nat
    }
}

/// `ws` with the width of `name` set to `w`, appending the column when it is new.
pub open spec fn set_width(ws: Seq<ColumnWidth>, name: String, w: usize) -> Seq<ColumnWidth> {
    let i = find_width(ws, name@);
    if i < 0 {
        ws.push(ColumnWidth { name: name, width: w })
    } else {
        ws.update(i, ColumnWidth { name: ws[i].name, width: w })
    }
}

pub open spec fn sat_add(a: nat, b: nat) -> usize {
    if a + b > usize::MAX {
        usize::MAX
    } else {
        (a + b) as usize
    }
}

/// New width of a column of width `current` after it has shown `value`: when the longer
/// of value and name plus `min_b` exceeds `current`, it jumps to that length plus `max_b`.
pub open spec fn grown_width(
    current: nat,
    name: Seq<char>,
    value: Seq<char>,
    min_b: nat,
    max_b: nat,
) -> usize {
    let v = if value.len() >= name.len() {
        value.len()
    } else {
        name.len()
    };
    if v + min_b > current {
        sat_add(v, max_b)
    } else {
        current as usize
    }
}

/// Widths after the fields `fs` have been seen.
pub open spec fn absorb(ws: Seq<ColumnWidth>, fs: Seq<Field>, min_b: nat, max_b: nat) -> Seq<
    ColumnWidth,
>
    decreases fs.len(),
{
    if fs.len() == 0 {
        ws
    } else {
        let prev = absorb(ws, fs.drop_last(), min_b, max_b);
        let f = fs.last();
        set_width(
            prev,
            f.name,
            grown_width(width_of(prev, f.name@), f.name@, f.value@, min_b, max_b),
        )
    }
}

pub open spec fn in_names(o: Seq<String>, n: Seq<char>) -> bool {
    exists|i: int| 0 <= i < o.len() && #[trigger] o[i]@ == n
}

/// `x` inserted into `s` before the first entry that follows it lexicographically.
pub open spec fn insert_sorted(s: Seq<String>, x: String) -> Seq<String>
    decreases s.len(),
{
    if s.len() == 0 {
        seq![x]
    } else if lex_lt(x@, s[0]@) {
        seq![x] + s
    } else {
        seq![s[0]] + insert_sorted(s.drop_first(), x)
    }
}

/// Names of `fs` absent from `order`, each once, in lexicographic order.
pub open spec fn new_names(order: Seq<String>, fs: Seq<Field>) -> Seq<String>
    decreases fs.len(),
{
    if fs.len() == 0 {
        Seq::empty()
    } else {
        let prev = new_names(order, fs.drop_last());
        let n = fs.last().name;
        if in_names(order, n@) || in_names(prev, n@) {
            prev
        } else {
            insert_sorted(prev, n)
        }
    }
}

/// Line width that a record layout over the columns of `ws` takes.
pub open spec fn projected(ws: Seq<ColumnWidth>) -> nat
    decreases ws.len(),
{
    if ws.len() == 0 {
        0
    } else {
        (projected(ws.drop_last()) + ws.last().width + ws.last().name@.len() + 3) as nat
    }
}

pub open spec fn overflows(ws: Seq<ColumnWidth>, term: Option<TerminalSize>) -> bool {
    match term {
        None => false,
        Some(t) => projected(ws) > t.width,
    }
}

/// Sum of the widths of `ws`.
pub open spec fn width_total(ws: Seq<ColumnWidth>) -> nat
    decreases ws.len(),
{
    if ws.len() == 0 {
        0
    } else {
        (width_total(ws.drop_last()) + ws.last().width) as nat
    }
}

pub proof fn lemma_find_width(ws: Seq<ColumnWidth>, n: Seq<char>)
    ensures
        -1 <= find_width(ws, n) < ws.len(),
        find_width(ws, n) >= 0 ==> ws[find_width(ws, n)].name@ == n,
        forall|j: int| find_width(ws, n) < j < ws.len() ==> ws[j].name@ != n,
    decreases ws.len(),
{
    if ws.len() > 0 {
        lemma_find_width(ws.drop_last(), n);
        assert forall|j: int| find_width(ws, n) < j < ws.len() implies ws[j].name@ != n by {
            if j < ws.len() - 1 {
                assert(ws.drop_last()[j] == ws[j]);
            }
        }
    }
}

/// Position of the last entry of `ws` named `n`.
fn find_width_index(ws: &Vec<ColumnWidth>, n: &String) -> (r: Option<usize>)
    ensures
        match r {
            None => find_width(ws@, n@) == -1,
            Some(i) => find_width(ws@, n@) == i && i < ws@.len(),
        },
{
    let mut i = ws.len();
    assert(ws@.take(i as int) =~= ws@);
    while i > 0
        invariant
            i <= ws@.len(),
            find_width(ws@, n@) == find_width(ws@.take(i as int), n@),
        decreases i,
    {
        if ws[i - 1].name == *n {
            return Some(i - 1);
        }
        assert(ws@.take(i as int).drop_last() =~= ws@.take(i - 1));
        i = i - 1;
    }
    None
}

/// Width recorded for column `n`, zero when it is not tracked.
fn width_lookup(ws: &Vec<ColumnWidth>, n: &String) -> (r: usize)
    ensures
        r == width_of(ws@, n@),
{
    match find_width_index(ws, n) {
        None => 0,
        Some(i) => ws[i].width,
    }
}

/// Sets the width of column `name` to `w`.
fn put_width(ws: &mut Vec<ColumnWidth>, name: &String, w: usize)
    ensures
        final(ws)@ == set_width(old(ws)@, *name, w),
{
    match find_width_index(ws, name) {
        None => {
            ws.push(ColumnWidth { name: name.clone(), width: w });
        },
        Some(i) => {
            let n = ws[i].name.clone();
            ws.set(i, ColumnWidth { name: n, width: w });
        },
    }
}

/// Whether some entry of `o` equals `n`.
fn contains_name(o: &Vec<String>, n: &String) -> (r: bool)
    ensures
        r == in_names(o@, n@),
{
    let mut i: usize = 0;
    while i < o.len()
        invariant
            i <= o@.len(),
            forall|j: int| 0 <= j < i ==> o@[j]@ != n@,
        decreases o@.len() - i,
    {
        if o[i] == *n {
            return true;
        }
        i = i + 1;
    }
    false
}

/// Inserts `x` into `s` before the first entry that follows it lexicographically.
fn insert_in_order(s: &mut Vec<String>, x: String)
    ensures
        final(s)@ == insert_sorted(old(s)@, x),
{
    let ghost s0 = s@;
    let mut p: usize = 0;
    assert(s0.skip(0) =~= s0);
    assert(s0.take(0) + insert_sorted(s0.skip(0), x) =~= insert_sorted(s0, x));
    while p < s.len()
        invariant
            s@ == s0,
            p <= s0.len(),
            insert_sorted(s0, x) == s0.take(p as int) + insert_sorted(s0.skip(p as int), x),
        ensures
            s@ == s0,
            p <= s0.len(),
            insert_sorted(s0, x) == s0.take(p as int) + insert_sorted(s0.skip(p as int), x),
            p == s0.len() || lex_lt(x@, s0[p as int]@),
        decreases s0.len() - p,
    {
        if str_less(x.as_str(), s[p].as_str()) {
            break;
        }
        proof {
            let t = s0.skip(p as int);
            assert(t[0] == s0[p as int]);
            assert(t.drop_first() =~= s0.skip(p + 1));
            assert(s0.take(p as int) + (seq![t[0]] + insert_sorted(s0.skip(p + 1), x)) =~= s0.take(
                p + 1,
            ) + insert_sorted(s0.skip(p + 1), x));
        }
        p = p + 1;
    }
    proof {
        let t = s0.skip(p as int);
        if p < s0.len() {
            assert(t[0] == s0[p as int]);
        }
        assert(s0.take(p as int) + insert_sorted(t, x) =~= s0.insert(p as int, x));
    }
    s.insert(p, x);
}


/// Value of the last field of `fs` named `n`.
pub open spec fn field_value(fs: Seq<Field>, n: Seq<char>) -> Option<Seq<char>>
    decreases fs.len(),
{
    if fs.len() == 0 {
        None
    } else if fs.last().name@ == n {
        Some(fs.last().value@)
    } else {
        field_value(fs.drop_last(), n)
    }
}

/// Cell of column `n` in a record line: `[n=value]` when the record has the field,
/// empty otherwise; padded to the name, the brackets and the column width `w`.
pub open spec fn record_cell(fs: Seq<Field>, n: Seq<char>, w: nat, padded: bool) -> Seq<char> {
    let bare = match field_value(fs, n) {
        Some(v) => seq!['['] + n + seq!['='] + v + seq![']'],
        None => Seq::empty(),
    };
    if padded {
        pad_to(bare, n.len() + 3 + w)
    } else {
        bare
    }
}

/// The cells of `order` side by side, before trimming.
pub open spec fn record_cells(
    order: Seq<String>,
    fs: Seq<Field>,
    ws: Seq<ColumnWidth>,
    padded: bool,
) -> Seq<char>
    decreases order.len(),
{
    if order.len() == 0 {
        Seq::empty()
    } else {
        record_cells(order.drop_last(), fs, ws, padded) + record_cell(
            fs,
            order.last()@,
            width_of(ws, order.last()@),
            padded,
        )
    }
}

/// The pairs of name and value of `fs`.
pub open spec fn field_pairs(fs: Seq<Field>) -> Seq<(Seq<char>, Seq<char>)> {
    fs.map_values(|f: Field| (f.name@, f.value@))
}

/// What the template engine makes of a template and the fields, `None` for a failure.
pub uninterp spec fn interpolation_of(
    template: Seq<char>,
    fields: Seq<(Seq<char>, Seq<char>)>,
) -> Option<Seq<char>>;

/// strfmt's error type, carried opaquely from the template engine.
#[verifier::external_type_specification]
#[verifier::external_body]
pub struct ExFmtError(strfmt::FmtError);

/// Relies on strfmt::strfmt: fills `{name}` placeholders of the template from a map of
/// the fields; it fails on a malformed template or a missing name. The outcome depends
/// on the template and the fields alone.
#[verifier::external_body]
fn interpolate(template: &String, fields: &Vec<Field>) -> (r: Result<String, strfmt::FmtError>)
    ensures
        r is Ok <==> interpolation_of(template@, field_pairs(fields@)) is Some,
        r is Ok ==> r->Ok_0@ == interpolation_of(template@, field_pairs(fields@))->0,
{
    let vars: std::collections::HashMap<String, String> = fields.iter().map(
        |f| (f.name.clone(), f.value.clone()),
    ).collect();
    strfmt::strfmt(template, &vars)
}

/// Failure of a record template.
#[derive(PartialEq, Eq, Structural, Debug)]
pub enum RenderError {
    /// The template is malformed or names a field the record lacks.
    Template,
}

/// Position of the last field of `fs` named `n`.
fn find_field(fs: &Vec<Field>, n: &String) -> (r: Option<usize>)
    ensures
        match r {
            None => field_value(fs@, n@) is None,
            Some(i) => i < fs@.len() && field_value(fs@, n@) == Some(fs@[i as int].value@),
        },
{
    let mut i = fs.len();
    assert(fs@.take(i as int) =~= fs@);
    while i > 0
        invariant
            i <= fs@.len(),
            field_value(fs@, n@) == field_value(fs@.take(i as int), n@),
        decreases i,
    {
        if fs[i - 1].name == *n {
            return Some(i - 1);
        }
        assert(fs@.take(i as int).drop_last() =~= fs@.take(i - 1));
        i = i - 1;
    }
    None
}

/// Folds the fields into the widths `ws`.
fn absorb_into(ws: &mut Vec<ColumnWidth>, fields: &Vec<Field>, min_b: usize, max_b: usize)
    ensures
        final(ws)@ == absorb(old(ws)@, fields@, min_b as nat, max_b as nat),
{
    let ghost ws0 = ws@;
    let mut i: usize = 0;
    assert(fields@.take(0) =~= Seq::<Field>::empty());
    while i < fields.len()
        invariant
            i <= fields@.len(),
            ws@ == absorb(ws0, fields@.take(i as int), min_b as nat, max_b as nat),
        decreases fields@.len() - i,
    {
        let f = &fields[i];
        let cur = width_lookup(ws, &f.name);
        let vlen = f.value.as_str().unicode_len();
        let nlen = f.name.as_str().unicode_len();
        let v = if vlen >= nlen {
            vlen
        } else {
            nlen
        };
        let grows = if v > cur {
            true
        } else {
            min_b > cur - v
        };
        let nw = if grows {
            if max_b > usize::MAX - v {
                usize::MAX
            } else {
                v + max_b
            }
        } else {
            cur
        };
        put_width(ws, &f.name, nw);
        proof {
            assert(fields@.take(i + 1).drop_last() =~= fields@.take(i as int));
            assert(fields@.take(i + 1).last() == fields@[i as int]);
        }
        i = i + 1;
    }
    assert(fields@.take(i as int) =~= fields@);
}

/// Copy of `ws`.
fn copy_widths(ws: &Vec<ColumnWidth>) -> (r: Vec<ColumnWidth>)
    ensures
        r@ == ws@,
{
    let mut r: Vec<ColumnWidth> = Vec::new();
    let mut i: usize = 0;
    while i < ws.len()
        invariant
            i <= ws@.len(),
            r@ == ws@.take(i as int),
        decreases ws@.len() - i,
    {
        r.push(ColumnWidth { name: ws[i].name.clone(), width: ws[i].width });
        assert(r@ =~= ws@.take(i + 1));
        i = i + 1;
    }
    assert(ws@.take(i as int) =~= ws@);
    r
}

/// Appends the record cell of column `name` of width `w` to `s`.
fn push_record_cell(s: &mut String, fields: &Vec<Field>, name: &String, w: usize, padded: bool)
    ensures
        final(s)@ == old(s)@ + record_cell(fields@, name@, w as nat, padded),
{
    proof {
        reveal_strlit("[");
        reveal_strlit("=");
        reveal_strlit("]");
    }
    match find_field(fields, name) {
        Some(i) => {
            let v = &fields[i].value;
            s.append("[");
            s.append(name.as_str());
            s.append("=");
            s.append(v.as_str());
            s.append("]");
            let vl = v.as_str().unicode_len();
            if padded && w > vl {
                push_spaces(s, w - vl);
            }
            assert(final(s)@ =~= old(s)@ + record_cell(fields@, name@, w as nat, padded));
        },
        None => {
            if padded {
                let nl = name.as_str().unicode_len();
                push_spaces(s, nl);
                push_spaces(s, 3);
                push_spaces(s, w);
            }
            assert(final(s)@ =~= old(s)@ + record_cell(fields@, name@, w as nat, padded));
        },
    }
}

/// Projected line width of a record layout over `ws`, `None` when it exceeds `usize`.
fn projected_width(ws: &Vec<ColumnWidth>) -> (r: Option<usize>)
    ensures
        match r {
            None => projected(ws@) > usize::MAX,
            Some(n) => n == projected(ws@),
        },
{
    let mut acc: usize = 0;
    let mut i: usize = 0;
    assert(ws@.take(0) =~= Seq::<ColumnWidth>::empty());
    while i < ws.len()
        invariant
            i <= ws@.len(),
            acc == projected(ws@.take(i as int)),
        decreases ws@.len() - i,
    {
        proof {
            assert(ws@.take(i + 1).drop_last() =~= ws@.take(i as int));
            assert(ws@.take(i + 1).last() == ws@[i as int]);
            lemma_projected_prefix(ws@, i + 1);
        }
        let w = ws[i].width;
        let nl = ws[i].name.as_str().unicode_len();
        if w > usize::MAX - acc {
            return None;
        }
        let a1 = acc + w;
        if nl > usize::MAX - a1 {
            return None;
        }
        let a2 = a1 + nl;
        if 3 > usize::MAX - a2 {
            return None;
        }
        acc = a2 + 3;
        i = i + 1;
    }
    assert(ws@.take(i as int) =~= ws@);
    Some(acc)
}

/// A prefix projects no wider than the whole.
proof fn lemma_projected_prefix(ws: Seq<ColumnWidth>, k: int)
    requires
        0 <= k <= ws.len(),
    ensures
        projected(ws.take(k)) <= projected(ws),
    decreases ws.len(),
{
    if k < ws.len() {
        assert(ws.drop_last().take(k) =~= ws.take(k));
        lemma_projected_prefix(ws.drop_last(), k);
    } else {
        assert(ws.take(k) =~= ws);
    }
}

/// Widths after every row of `rows` has been seen, in order.
pub open spec fn absorb_rows(ws: Seq<ColumnWidth>, rows: Seq<Vec<Field>>, min_b: nat, max_b: nat) -> Seq<
    ColumnWidth,
>
    decreases rows.len(),
{
    if rows.len() == 0 {
        ws
    } else {
        absorb(absorb_rows(ws, rows.drop_last(), min_b, max_b), rows.last()@, min_b, max_b)
    }
}

/// Width budget of an aggregate table.
pub open spec fn table_budget(term: Option<TerminalSize>) -> nat {
    match term {
        None => DEFAULT_TABLE_WIDTH as nat,
        Some(t) => t.width as nat,
    }
}

/// Share of `rem` offered to the column at position `i` when `held` widths are tracked.
pub open spec fn fair_share(rem: nat, held: nat, i: nat) -> nat {
    if held > i {
        rem / ((held - i) as nat)
    } else {
        rem
    }
}

/// Widths given to the first `k` of `cols` and the budget left, in a single greedy pass:
/// each column keeps its width when it is below its fair share, else gets the share.
pub open spec fn shrink_state(ws: Seq<ColumnWidth>, cols: Seq<String>, budget: nat, k: nat) -> (
    Seq<ColumnWidth>,
    nat,
)
    decreases k,
{
    if k == 0 {
        (Seq::empty(), budget)
    } else {
        let prev = shrink_state(ws, cols, budget, (k - 1) as nat);
        let col = cols[k - 1];
        let w = width_of(ws, col@);
        let share = fair_share(prev.1, ws.len(), (k - 1) as nat);
        if w < share {
            (set_width(prev.0, col, w as usize), (prev.1 - w) as nat)
        } else {
            (set_width(prev.0, col, share as usize), (prev.1 - share) as nat)
        }
    }
}

/// `ws` when its total fits `budget`; else the widths of `cols` shrunk to fit.
pub open spec fn resized(ws: Seq<ColumnWidth>, cols: Seq<String>, budget: nat) -> Seq<ColumnWidth> {
    if width_total(ws) <= budget {
        ws
    } else {
        shrink_state(ws, cols, budget, cols.len()).0
    }
}

/// Column names, each padded to its width, before trimming.
pub open spec fn header_cells(cols: Seq<String>, ws: Seq<ColumnWidth>) -> Seq<char>
    decreases cols.len(),
{
    if cols.len() == 0 {
        Seq::empty()
    } else {
        header_cells(cols.drop_last(), ws) + pad_to(cols.last()@, width_of(ws, cols.last()@))
    }
}

/// Text of a table cell: the field's value, empty when the row lacks it.
pub open spec fn cell_text(row: Seq<Field>, n: Seq<char>) -> Seq<char> {
    match field_value(row, n) {
        Some(v) => v,
        None => Seq::empty(),
    }
}

/// Cells of one table row, each fitted to its column width, before trimming.
pub open spec fn row_cells(cols: Seq<String>, row: Seq<Field>, ws: Seq<ColumnWidth>) -> Seq<char>
    decreases cols.len(),
{
    if cols.len() == 0 {
        Seq::empty()
    } else {
        row_cells(cols.drop_last(), row, ws) + fit(
            cell_text(row, cols.last()@),
            width_of(ws, cols.last()@),
        )
    }
}

pub open spec fn dashes(n: nat) -> Seq<char> {
    Seq::new(n, |i: int| '-')
}

/// Header, separator and one line per row.
pub open spec fn table_lines(cols: Seq<String>, rows: Seq<Vec<Field>>, ws: Seq<ColumnWidth>) -> Seq<
    Seq<char>,
> {
    let h = header_cells(cols, ws);
    seq![trimmed(h), dashes(h.len())] + Seq::new(
        rows.len(),
        |i: int| trimmed(row_cells(cols, rows[i]@, ws)),
    )
}

/// Each line followed by a line break.
pub open spec fn joined_lines(ls: Seq<Seq<char>>) -> Seq<char>
    decreases ls.len(),
{
    if ls.len() == 0 {
        Seq::empty()
    } else {
        joined_lines(ls.drop_last()) + ls.last() + seq!['\n']
    }
}

/// Line breaks an aggregate render may hold: without a known height all of them, else
/// one less than the height.
pub open spec fn line_budget(term: Option<TerminalSize>) -> Option<nat> {
    match term {
        None => None,
        Some(t) => Some(
            if t.height == 0 {
                0nat
            } else {
                (t.height - 1) as nat
            },
        ),
    }
}

/// `u` cut after its line break number `budget`, when a budget is given.
pub open spec fn clip_to(u: Seq<char>, budget: Option<nat>) -> Seq<char> {
    match budget {
        None => u,
        Some(k) => clip_lines(u, k),
    }
}

pub open spec fn string_views(v: Seq<String>) -> Seq<Seq<char>> {
    v.map_values(|s: String| s@)
}

pub proof fn lemma_total_update(ws: Seq<ColumnWidth>, i: int, c: ColumnWidth)
    requires
        0 <= i < ws.len(),
    ensures
        width_total(ws.update(i, c)) == width_total(ws) - ws[i].width + c.width,
    decreases ws.len(),
{
    let u = ws.update(i, c);
    if i == ws.len() - 1 {
        assert(u.drop_last() =~= ws.drop_last());
    } else {
        assert(u.drop_last() =~= ws.drop_last().update(i, c));
        lemma_total_update(ws.drop_last(), i, c);
    }
}

pub proof fn lemma_total_set(ws: Seq<ColumnWidth>, name: String, w: usize)
    ensures
        width_total(set_width(ws, name, w)) <= width_total(ws) + w,
{
    lemma_find_width(ws, name@);
    let i = find_width(ws, name@);
    if i < 0 {
        assert(ws.push(ColumnWidth { name: name, width: w }).drop_last() =~= ws);
    } else {
        lemma_total_update(ws, i, ColumnWidth { name: ws[i].name, width: w });
    }
}

pub proof fn lemma_shrink_state(ws: Seq<ColumnWidth>, cols: Seq<String>, budget: nat, k: nat)
    ensures
        width_total(shrink_state(ws, cols, budget, k).0) + shrink_state(ws, cols, budget, k).1
            <= budget,
    decreases k,
{
    if k > 0 {
        lemma_shrink_state(ws, cols, budget, (k - 1) as nat);
        let prev = shrink_state(ws, cols, budget, (k - 1) as nat);
        let col = cols[k - 1];
        let w = width_of(ws, col@);
        let share = fair_share(prev.1, ws.len(), (k - 1) as nat);
        if ws.len() > k - 1 {
            let d = (ws.len() - (k - 1)) as nat;
            assert(prev.1 / d <= prev.1) by (nonlinear_arith)
                requires
                    d >= 1,
            ;
        }
        if w < share {
            lemma_total_set(prev.0, col, w as usize);
        } else {
            lemma_total_set(prev.0, col, share as usize);
        }
    }
}

/// Shrink-to-fit never leaves a table wider than its budget.
pub proof fn lemma_resized_within_budget(ws: Seq<ColumnWidth>, cols: Seq<String>, budget: nat)
    ensures
        width_total(resized(ws, cols, budget)) <= budget,
{
    lemma_shrink_state(ws, cols, budget, cols.len());
}

proof fn lemma_total_prefix(ws: Seq<ColumnWidth>, k: int)
    requires
        0 <= k <= ws.len(),
    ensures
        width_total(ws.take(k)) <= width_total(ws),
    decreases ws.len(),
{
    if k < ws.len() {
        assert(ws.drop_last().take(k) =~= ws.take(k));
        lemma_total_prefix(ws.drop_last(), k);
    } else {
        assert(ws.take(k) =~= ws);
    }
}

proof fn lemma_joined_concat(a: Seq<Seq<char>>, b: Seq<Seq<char>>)
    ensures
        joined_lines(a + b) == joined_lines(a) + joined_lines(b),
    decreases b.len(),
{
    if b.len() == 0 {
        assert(a + b =~= a);
        assert(joined_lines(a) + joined_lines(b) =~= joined_lines(a));
    } else {
        assert((a + b).drop_last() =~= a + b.drop_last());
        assert((a + b).last() == b.last());
        lemma_joined_concat(a, b.drop_last());
        assert(joined_lines(a) + joined_lines(b) =~= joined_lines(a) + joined_lines(b.drop_last())
            + b.last() + seq!['\n']);
    }
}

/// The lines, each followed by a line break, cut after line break number `k`.
fn clip_joined(lines: &Vec<String>, k: usize) -> (r: String)
    ensures
        r@ == clip_lines(joined_lines(string_views(lines@)), k as nat),
{
    let ghost v = string_views(lines@);
    let mut acc = String::new();
    let mut rem = k;
    let mut i: usize = 0;
    assert(v.skip(0) =~= v);
    assert(Seq::<char>::empty() + clip_lines(joined_lines(v), k as nat) =~= clip_lines(
        joined_lines(v),
        k as nat,
    ));
    while i < lines.len()
        invariant
            i <= lines@.len(),
            v == string_views(lines@),
            clip_lines(joined_lines(v), k as nat) == acc@ + clip_lines(
                joined_lines(v.skip(i as int)),
                rem as nat,
            ),
        decreases lines@.len() - i,
    {
        let mut piece = lines[i].clone();
        piece.append("\n");
        let c = count_occurrences(piece.as_str(), '\n');
        let ghost rest = joined_lines(v.skip(i + 1));
        proof {
            reveal_strlit("\n");
            assert(v.skip(i as int) =~= seq![v[i as int]] + v.skip(i + 1));
            lemma_joined_concat(seq![v[i as int]], v.skip(i + 1));
            assert(seq![v[i as int]].drop_last() =~= Seq::<Seq<char>>::empty());
            assert(v[i as int] == lines@[i as int]@);
            assert(seq![v[i as int]].last() == v[i as int]);
            assert(joined_lines(Seq::<Seq<char>>::empty()) == Seq::<char>::empty());
            assert(joined_lines(seq![v[i as int]]) =~= piece@);
        }
        if c > rem {
            proof {
                lemma_clip_prefix_enough(piece@, rest, rem as nat);
            }
            let tail = clip_text(piece.as_str(), rem);
            acc.append(tail.as_str());
            return acc;
        }
        proof {
            lemma_clip_whole_piece(piece@, rest, rem as nat);
            assert(acc@ + (piece@ + clip_lines(rest, (rem - c) as nat)) =~= (acc@ + piece@)
                + clip_lines(rest, (rem - c) as nat));
        }
        acc.append(piece.as_str());
        rem = rem - c;
        i = i + 1;
    }
    proof {
        assert(v.skip(i as int) =~= Seq::<Seq<char>>::empty());
        assert(acc@ + Seq::<char>::empty() =~= acc@);
    }
    acc
}

/// A string of `n` dashes.
fn dash_line(n: usize) -> (r: String)
    ensures
        r@ == dashes(n as nat),
{
    let mut r = String::new();
    let mut i: usize = 0;
    while i < n
        invariant
            i <= n,
            r@ == dashes(i as nat),
        decreases n - i,
    {
        r.append("-");
        proof {
            reveal_strlit("-");
        }
        assert(r@ =~= dashes((i + 1) as nat));
        i = i + 1;
    }
    r
}

/// The first `k` lines, each followed by a line break.
fn join_lines(lines: &Vec<String>, k: usize) -> (r: String)
    requires
        k <= lines@.len(),
    ensures
        r@ == joined_lines(string_views(lines@).take(k as int)),
{
    let mut r = String::new();
    let mut i: usize = 0;
    assert(string_views(lines@).take(0) =~= Seq::<Seq<char>>::empty());
    while i < k
        invariant
            i <= k,
            k <= lines@.len(),
            r@ == joined_lines(string_views(lines@).take(i as int)),
        decreases k - i,
    {
        r.append(lines[i].as_str());
        r.append("\n");
        proof {
            reveal_strlit("\n");
            let v = string_views(lines@);
            assert(v.take(i + 1).drop_last() =~= v.take(i as int));
            assert(v.take(i + 1).last() == lines@[i as int]@);
        }
        i = i + 1;
    }
    r
}

/// Each name strictly precedes every later one.
pub open spec fn strictly_sorted(s: Seq<String>) -> bool {
    forall|i: int, j: int| 0 <= i < j < s.len() ==> lex_lt(#[trigger] s[i]@, #[trigger] s[j]@)
}

proof fn lemma_insert_sorted_elements(s: Seq<String>, x: String)
    ensures
        insert_sorted(s, x).len() == s.len() + 1,
        forall|k: int|
            0 <= k < insert_sorted(s, x).len() ==> #[trigger] insert_sorted(s, x)[k] == x
                || exists|j: int| 0 <= j < s.len() && s[j] == insert_sorted(s, x)[k],
        in_names(insert_sorted(s, x), x@),
        forall|n: Seq<char>| in_names(s, n) ==> in_names(insert_sorted(s, x), n),
    decreases s.len(),
{
    let r = insert_sorted(s, x);
    if s.len() == 0 {
        assert(r[0] == x);
    } else if lex_lt(x@, s[0]@) {
        assert(r[0] == x);
        assert forall|k: int| 0 <= k < r.len() implies #[trigger] r[k] == x || exists|j: int|
            0 <= j < s.len() && s[j] == r[k] by {
            if k > 0 {
                assert(s[k - 1] == r[k]);
            }
        }
        assert forall|n: Seq<char>| in_names(s, n) implies in_names(r, n) by {
            let j = choose|j: int| 0 <= j < s.len() && #[trigger] s[j]@ == n;
            assert(r[j + 1]@ == n);
        }
    } else {
        let t = s.drop_first();
        lemma_insert_sorted_elements(t, x);
        let rt = insert_sorted(t, x);
        assert(r == seq![s[0]] + rt);
        assert forall|k: int| 0 <= k < r.len() implies #[trigger] r[k] == x || exists|j: int|
            0 <= j < s.len() && s[j] == r[k] by {
            if k == 0 {
                assert(s[0] == r[0]);
            } else {
                assert(r[k] == rt[k - 1]);
                if rt[k - 1] != x {
                    let j = choose|j: int| 0 <= j < t.len() && t[j] == rt[k - 1];
                    assert(s[j + 1] == r[k]);
                }
            }
        }
        let kx = choose|k: int| 0 <= k < rt.len() && #[trigger] rt[k]@ == x@;
        assert(r[kx + 1]@ == x@);
        assert forall|n: Seq<char>| in_names(s, n) implies in_names(r, n) by {
            let j = choose|j: int| 0 <= j < s.len() && #[trigger] s[j]@ == n;
            if j == 0 {
                assert(r[0]@ == n);
            } else {
                assert(t[j - 1]@ == n);
                assert(in_names(t, n));
                let k = choose|k: int| 0 <= k < rt.len() && #[trigger] rt[k]@ == n;
                assert(r[k + 1]@ == n);
            }
        }
    }
}

proof fn lemma_insert_sorted_sorted(s: Seq<String>, x: String)
    requires
        strictly_sorted(s),
        !in_names(s, x@),
    ensures
        strictly_sorted(insert_sorted(s, x)),
    decreases s.len(),
{
    let r = insert_sorted(s, x);
    lemma_insert_sorted_elements(s, x);
    if s.len() == 0 {
    } else if lex_lt(x@, s[0]@) {
        assert forall|i: int, j: int| 0 <= i < j < r.len() implies lex_lt(
            #[trigger] r[i]@,
            #[trigger] r[j]@,
        ) by {
            if i == 0 {
                if j > 1 {
                    lemma_lex_transitive(x@, s[0]@, s[j - 1]@);
                }
            } else {
                assert(r[i] == s[i - 1] && r[j] == s[j - 1]);
            }
        }
    } else {
        let t = s.drop_first();
        assert(s[0]@ != x@);
        lemma_lex_total(x@, s[0]@);
        assert forall|i: int, j: int| 0 <= i < j < t.len() implies lex_lt(
            #[trigger] t[i]@,
            #[trigger] t[j]@,
        ) by {
            assert(t[i] == s[i + 1] && t[j] == s[j + 1]);
        }
        if in_names(t, x@) {
            let j = choose|j: int| 0 <= j < t.len() && #[trigger] t[j]@ == x@;
            assert(s[j + 1]@ == x@);
        }
        lemma_insert_sorted_sorted(t, x);
        lemma_insert_sorted_elements(t, x);
        let rt = insert_sorted(t, x);
        assert(r == seq![s[0]] + rt);
        assert forall|i: int, j: int| 0 <= i < j < r.len() implies lex_lt(
            #[trigger] r[i]@,
            #[trigger] r[j]@,
        ) by {
            if i == 0 {
                assert(r[j] == rt[j - 1]);
                if rt[j - 1] != x {
                    let m = choose|m: int| 0 <= m < t.len() && t[m] == rt[j - 1];
                    assert(s[m + 1] == r[j]);
                }
            } else {
                assert(r[i] == rt[i - 1] && r[j] == rt[j - 1]);
            }
        }
    }
}

/// The new column names come out in strict lexicographic order, so without repeats.
pub proof fn lemma_new_names_sorted(order: Seq<String>, fs: Seq<Field>)
    ensures
        strictly_sorted(new_names(order, fs)),
    decreases fs.len(),
{
    if fs.len() > 0 {
        lemma_new_names_sorted(order, fs.drop_last());
        let prev = new_names(order, fs.drop_last());
        let n = fs.last().name;
        if !(in_names(order, n@) || in_names(prev, n@)) {
            lemma_insert_sorted_sorted(prev, n);
        }
    }
}

/// No two entries of `ws` share a name.
pub open spec fn distinct_widths(ws: Seq<ColumnWidth>) -> bool {
    forall|i: int, j: int|
        0 <= i < j < ws.len() ==> #[trigger] ws[i].name@ != #[trigger] ws[j].name@
}

/// No name occurs twice in `o`.
pub open spec fn distinct_names(o: Seq<String>) -> bool {
    forall|i: int, j: int| 0 <= i < j < o.len() ==> #[trigger] o[i]@ != #[trigger] o[j]@
}

pub proof fn lemma_set_width_distinct(ws: Seq<ColumnWidth>, name: String, w: usize)
    requires
        distinct_widths(ws),
    ensures
        distinct_widths(set_width(ws, name, w)),
{
    lemma_find_width(ws, name@);
    let r = set_width(ws, name, w);
    assert forall|i: int, j: int| 0 <= i < j < r.len() implies #[trigger] r[i].name@
        != #[trigger] r[j].name@ by {
        if j < ws.len() {
            assert(r[i].name@ == ws[i].name@ && r[j].name@ == ws[j].name@);
        }
    }
}

pub proof fn lemma_absorb_distinct(ws: Seq<ColumnWidth>, fs: Seq<Field>, min_b: nat, max_b: nat)
    requires
        distinct_widths(ws),
    ensures
        distinct_widths(absorb(ws, fs, min_b, max_b)),
    decreases fs.len(),
{
    if fs.len() > 0 {
        lemma_absorb_distinct(ws, fs.drop_last(), min_b, max_b);
        let prev = absorb(ws, fs.drop_last(), min_b, max_b);
        let f = fs.last();
        lemma_set_width_distinct(
            prev,
            f.name,
            grown_width(width_of(prev, f.name@), f.name@, f.value@, min_b, max_b),
        );
    }
}

pub proof fn lemma_absorb_rows_distinct(
    ws: Seq<ColumnWidth>,
    rows: Seq<Vec<Field>>,
    min_b: nat,
    max_b: nat,
)
    requires
        distinct_widths(ws),
    ensures
        distinct_widths(absorb_rows(ws, rows, min_b, max_b)),
    decreases rows.len(),
{
    if rows.len() > 0 {
        lemma_absorb_rows_distinct(ws, rows.drop_last(), min_b, max_b);
        lemma_absorb_distinct(
            absorb_rows(ws, rows.drop_last(), min_b, max_b),
            rows.last()@,
            min_b,
            max_b,
        );
    }
}

pub proof fn lemma_shrink_distinct(ws: Seq<ColumnWidth>, cols: Seq<String>, budget: nat, k: nat)
    ensures
        distinct_widths(shrink_state(ws, cols, budget, k).0),
    decreases k,
{
    if k > 0 {
        lemma_shrink_distinct(ws, cols, budget, (k - 1) as nat);
        let prev = shrink_state(ws, cols, budget, (k - 1) as nat);
        let col = cols[k - 1];
        let w = width_of(ws, col@);
        let share = fair_share(prev.1, ws.len(), (k - 1) as nat);
        lemma_set_width_distinct(prev.0, col, w as usize);
        lemma_set_width_distinct(prev.0, col, share as usize);
    }
}

/// New column names are absent from the order they extend.
pub proof fn lemma_new_names_fresh(order: Seq<String>, fs: Seq<Field>)
    ensures
        forall|k: int|
            0 <= k < new_names(order, fs).len() ==> !in_names(
                order,
                #[trigger] new_names(order, fs)[k]@,
            ),
    decreases fs.len(),
{
    if fs.len() > 0 {
        lemma_new_names_fresh(order, fs.drop_last());
        let prev = new_names(order, fs.drop_last());
        let n = fs.last().name;
        if !(in_names(order, n@) || in_names(prev, n@)) {
            lemma_insert_sorted_elements(prev, n);
            let r = insert_sorted(prev, n);
            assert forall|k: int| 0 <= k < r.len() implies !in_names(order, #[trigger] r[k]@) by {
                if r[k] != n {
                    let j = choose|j: int| 0 <= j < prev.len() && prev[j] == r[k];
                    assert(!in_names(order, prev[j]@));
                }
            }
        }
    }
}

/// Extending a column order with its new names keeps every name once.
pub proof fn lemma_order_distinct(order: Seq<String>, fs: Seq<Field>)
    requires
        distinct_names(order),
    ensures
        distinct_names(order + new_names(order, fs)),
{
    let nn = new_names(order, fs);
    let o = order + nn;
    lemma_new_names_sorted(order, fs);
    lemma_new_names_fresh(order, fs);
    assert forall|i: int, j: int| 0 <= i < j < o.len() implies #[trigger] o[i]@ != #[trigger] o[j]@ by {
        if j >= order.len() {
            let jj = j - order.len();
            if i < order.len() {
                assert(o[i] == order[i]);
                assert(!in_names(order, nn[jj]@));
            } else {
                lemma_lex_irreflexive(nn[i - order.len()]@);
                assert(lex_lt(nn[i - order.len()]@, nn[jj]@));
            }
        } else {
            assert(o[i] == order[i] && o[j] == order[j]);
        }
    }
}

/// Entries at the same positions carry the same names.
pub open spec fn same_names(a: Seq<ColumnWidth>, b: Seq<ColumnWidth>) -> bool {
    a.len() == b.len() && forall|i: int| 0 <= i < a.len() ==> #[trigger] a[i].name@ == b[i].name@
}

proof fn lemma_find_same_names(a: Seq<ColumnWidth>, b: Seq<ColumnWidth>, n: Seq<char>)
    requires
        same_names(a, b),
    ensures
        find_width(a, n) == find_width(b, n),
    decreases a.len(),
{
    if a.len() > 0 {
        assert(a[a.len() - 1].name@ == b[b.len() - 1].name@);
        assert forall|i: int| 0 <= i < a.len() - 1 implies #[trigger] a.drop_last()[i].name@
            == b.drop_last()[i].name@ by {
            assert(a[i].name@ == b[i].name@);
        }
        lemma_find_same_names(a.drop_last(), b.drop_last(), n);
    }
}

/// Reading a width back after setting it.
pub proof fn lemma_width_of_set(ws: Seq<ColumnWidth>, name: String, w: usize, n: Seq<char>)
    ensures
        width_of(set_width(ws, name, w), n) == if n == name@ {
            w as nat
        } else {
            width_of(ws, n)
        },
{
    lemma_find_width(ws, name@);
    lemma_find_width(ws, n);
    let i = find_width(ws, name@);
    if i < 0 {
        let c = ColumnWidth { name: name, width: w };
        assert(ws.push(c).drop_last() =~= ws);
    } else {
        let u = ws.update(i, ColumnWidth { name: ws[i].name, width: w });
        assert forall|j: int| 0 <= j < ws.len() implies #[trigger] u[j].name@ == ws[j].name@ by {}
        lemma_find_same_names(u, ws, n);
        lemma_find_same_names(u, ws, name@);
    }
}

/// Seeing fields never narrows a column when `min_b <= max_b`.
pub proof fn lemma_absorb_grows(
    ws: Seq<ColumnWidth>,
    fs: Seq<Field>,
    min_b: nat,
    max_b: nat,
    n: Seq<char>,
)
    requires
        min_b <= max_b,
    ensures
        width_of(absorb(ws, fs, min_b, max_b), n) >= width_of(ws, n),
    decreases fs.len(),
{
    if fs.len() > 0 {
        let prev = absorb(ws, fs.drop_last(), min_b, max_b);
        lemma_absorb_grows(ws, fs.drop_last(), min_b, max_b, n);
        let f = fs.last();
        let g = grown_width(width_of(prev, f.name@), f.name@, f.value@, min_b, max_b);
        lemma_find_width(prev, f.name@);
        assert(g >= width_of(prev, f.name@));
        lemma_width_of_set(prev, f.name, g, n);
    }
}

/// Seeing `f` again would leave its column as it is.
pub open spec fn settled(ws: Seq<ColumnWidth>, f: Field, min_b: nat, max_b: nat) -> bool {
    &&& find_width(ws, f.name@) >= 0
    &&& grown_width(width_of(ws, f.name@), f.name@, f.value@, min_b, max_b) == width_of(
        ws,
        f.name@,
    )
}

proof fn lemma_find_set(ws: Seq<ColumnWidth>, name: String, w: usize, n: Seq<char>)
    ensures
        (find_width(ws, n) >= 0 || n == name@) ==> find_width(set_width(ws, name, w), n) >= 0,
{
    lemma_find_width(ws, name@);
    lemma_find_width(ws, n);
    let i = find_width(ws, name@);
    if i < 0 {
        let c = ColumnWidth { name: name, width: w };
        assert(ws.push(c).drop_last() =~= ws);
    } else {
        let u = ws.update(i, ColumnWidth { name: ws[i].name, width: w });
        assert forall|j: int| 0 <= j < ws.len() implies #[trigger] u[j].name@ == ws[j].name@ by {}
        lemma_find_same_names(u, ws, n);
    }
}

proof fn lemma_absorb_keeps_names(ws: Seq<ColumnWidth>, fs: Seq<Field>, min_b: nat, max_b: nat, n: Seq<char>)
    ensures
        find_width(ws, n) >= 0 ==> find_width(absorb(ws, fs, min_b, max_b), n) >= 0,
    decreases fs.len(),
{
    if fs.len() > 0 {
        lemma_absorb_keeps_names(ws, fs.drop_last(), min_b, max_b, n);
        let prev = absorb(ws, fs.drop_last(), min_b, max_b);
        let f = fs.last();
        lemma_find_set(prev, f.name, grown_width(width_of(prev, f.name@), f.name@, f.value@, min_b, max_b), n);
    }
}

/// A settled column stays settled when columns only widen and none disappears.
proof fn lemma_settled_grow(ws: Seq<ColumnWidth>, ws2: Seq<ColumnWidth>, f: Field, min_b: nat, max_b: nat)
    requires
        min_b <= max_b,
        settled(ws, f, min_b, max_b),
        find_width(ws2, f.name@) >= 0,
        width_of(ws2, f.name@) >= width_of(ws, f.name@),
    ensures
        settled(ws2, f, min_b, max_b),
{
    lemma_find_width(ws2, f.name@);
}

proof fn lemma_absorb_settles(ws: Seq<ColumnWidth>, fs: Seq<Field>, min_b: nat, max_b: nat)
    requires
        min_b <= max_b,
    ensures
        forall|k: int|
            0 <= k < fs.len() ==> settled(absorb(ws, fs, min_b, max_b), #[trigger] fs[k], min_b, max_b),
    decreases fs.len(),
{
    if fs.len() > 0 {
        let fs1 = fs.drop_last();
        lemma_absorb_settles(ws, fs1, min_b, max_b);
        let prev = absorb(ws, fs1, min_b, max_b);
        let f = fs.last();
        let g = grown_width(width_of(prev, f.name@), f.name@, f.value@, min_b, max_b);
        let r = set_width(prev, f.name, g);
        lemma_find_width(prev, f.name@);
        lemma_width_of_set(prev, f.name, g, f.name@);
        lemma_find_set(prev, f.name, g, f.name@);
        assert forall|k: int| 0 <= k < fs.len() implies settled(r, #[trigger] fs[k], min_b, max_b) by {
            if k < fs.len() - 1 {
                assert(fs[k] == fs1[k]);
                lemma_width_of_set(prev, f.name, g, fs[k].name@);
                lemma_find_set(prev, f.name, g, fs[k].name@);
                lemma_settled_grow(prev, r, fs[k], min_b, max_b);
            }
        }
    }
}

/// Seeing fields that are all settled changes nothing.
proof fn lemma_absorb_stable(ws: Seq<ColumnWidth>, fs: Seq<Field>, min_b: nat, max_b: nat)
    requires
        forall|k: int| 0 <= k < fs.len() ==> settled(ws, #[trigger] fs[k], min_b, max_b),
    ensures
        absorb(ws, fs, min_b, max_b) == ws,
    decreases fs.len(),
{
    if fs.len() > 0 {
        let fs1 = fs.drop_last();
        assert forall|k: int| 0 <= k < fs1.len() implies settled(ws, #[trigger] fs1[k], min_b, max_b) by {
            assert(fs1[k] == fs[k]);
        }
        lemma_absorb_stable(ws, fs1, min_b, max_b);
        let f = fs.last();
        assert(settled(ws, fs[fs.len() - 1], min_b, max_b));
        let i = find_width(ws, f.name@);
        lemma_find_width(ws, f.name@);
        assert(ws.update(i, ColumnWidth { name: ws[i].name, width: ws[i].width }) =~= ws);
    }
}

proof fn lemma_absorb_rows_settles(ws: Seq<ColumnWidth>, rows: Seq<Vec<Field>>, min_b: nat, max_b: nat)
    requires
        min_b <= max_b,
    ensures
        forall|r: int, k: int|
            0 <= r < rows.len() && 0 <= k < rows[r]@.len() ==> settled(
                absorb_rows(ws, rows, min_b, max_b),
                #[trigger] rows[r]@[k],
                min_b,
                max_b,
            ),
    decreases rows.len(),
{
    if rows.len() > 0 {
        let rows1 = rows.drop_last();
        lemma_absorb_rows_settles(ws, rows1, min_b, max_b);
        let prev = absorb_rows(ws, rows1, min_b, max_b);
        let last = rows.last()@;
        let res = absorb(prev, last, min_b, max_b);
        lemma_absorb_settles(prev, last, min_b, max_b);
        assert forall|r: int, k: int| 0 <= r < rows.len() && 0 <= k < rows[r]@.len() implies settled(
            res,
            #[trigger] rows[r]@[k],
            min_b,
            max_b,
        ) by {
            if r < rows.len() - 1 {
                assert(rows[r] == rows1[r]);
                let f = rows[r]@[k];
                lemma_absorb_grows(prev, last, min_b, max_b, f.name@);
                lemma_absorb_keeps_names(prev, last, min_b, max_b, f.name@);
                lemma_settled_grow(prev, res, f, min_b, max_b);
            } else {
                assert(rows[r]@ == last);
            }
        }
    }
}

proof fn lemma_absorb_rows_stable(ws: Seq<ColumnWidth>, rows: Seq<Vec<Field>>, min_b: nat, max_b: nat)
    requires
        forall|r: int, k: int|
            0 <= r < rows.len() && 0 <= k < rows[r]@.len() ==> settled(ws, #[trigger] rows[r]@[k], min_b, max_b),
    ensures
        absorb_rows(ws, rows, min_b, max_b) == ws,
    decreases rows.len(),
{
    if rows.len() > 0 {
        let rows1 = rows.drop_last();
        assert forall|r: int, k: int| 0 <= r < rows1.len() && 0 <= k < rows1[r]@.len() implies settled(
            ws,
            #[trigger] rows1[r]@[k],
            min_b,
            max_b,
        ) by {
            assert(rows1[r] == rows[r]);
        }
        lemma_absorb_rows_stable(ws, rows1, min_b, max_b);
        let last = rows.last()@;
        assert forall|k: int| 0 <= k < last.len() implies settled(ws, #[trigger] last[k], min_b, max_b) by {
            assert(rows[rows.len() - 1]@[k] == last[k]);
        }
        lemma_absorb_stable(ws, last, min_b, max_b);
    }
}

/// Rendering an aggregate snapshot a second time, when the first render took no shrink,
/// gives the same text and leaves the widths as they were.
pub proof fn lemma_aggregate_rerender(p: PrettyPrinter, q: PrettyPrinter, agg: Aggregate)
    requires
        p.render_config.min_buffer <= p.render_config.max_buffer,
        agg.rows@.len() > 0,
        width_total(absorb_rows(p.column_widths@, agg.rows@, p.min_b(), p.max_b())) <= table_budget(
            p.term_size,
        ),
        p.aggregate_state(&q, &agg),
    ensures
        q.aggregate_layout(&agg).1 == p.aggregate_layout(&agg).1,
        q.aggregate_layout(&agg).0 == q.column_widths@,
{
    let w1 = absorb_rows(p.column_widths@, agg.rows@, p.min_b(), p.max_b());
    lemma_absorb_rows_settles(p.column_widths@, agg.rows@, p.min_b(), p.max_b());
    lemma_absorb_rows_stable(w1, agg.rows@, p.min_b(), p.max_b());
}

/// Column widths never decrease across record renders unless the layout is reset: when
/// the grown layout fits the terminal, every column is at least as wide after the render
/// as before.
pub proof fn lemma_record_widths_never_shrink(
    p: PrettyPrinter,
    after: PrettyPrinter,
    rec: Record,
    n: Seq<char>,
)
    requires
        p.render_config.min_buffer <= p.render_config.max_buffer,
        p.record_state(&after, &rec),
        !overflows(absorb(p.column_widths@, rec.fields@, p.min_b(), p.max_b()), p.term_size),
    ensures
        width_of(after.column_widths@, n) >= width_of(p.column_widths@, n),
{
    lemma_absorb_grows(p.column_widths@, rec.fields@, p.min_b(), p.max_b(), n);
}

/// After an aggregate render the column widths add up to no more than the table budget.
pub proof fn lemma_aggregate_within_budget(p: PrettyPrinter, agg: Aggregate)
    requires
        agg.rows@.len() > 0,
    ensures
        width_total(p.aggregate_layout(&agg).0) <= table_budget(p.term_size),
{
    let w1 = absorb_rows(p.column_widths@, agg.rows@, p.min_b(), p.max_b());
    lemma_resized_within_budget(w1, agg.columns@, table_budget(p.term_size));
}

/// With a known terminal height an aggregate render holds at most one line break less
/// than the height.
pub proof fn lemma_aggregate_height(p: PrettyPrinter, agg: Aggregate, t: TerminalSize)
    requires
        agg.rows@.len() > 0,
        p.term_size == Some(t),
        t.height >= 1,
    ensures
        count_char(p.aggregate_layout(&agg).1, '\n') <= t.height - 1,
{
    let w1 = absorb_rows(p.column_widths@, agg.rows@, p.min_b(), p.max_b());
    let w2 = resized(w1, agg.columns@, table_budget(p.term_size));
    lemma_clip_count(joined_lines(table_lines(agg.columns@, agg.rows@, w2)), (t.height - 1) as nat);
}

/// Rendering one aggregate snapshot from the same layout state gives the same text and
/// the same widths.
pub proof fn lemma_aggregate_deterministic(p: PrettyPrinter, q: PrettyPrinter, agg: Aggregate)
    requires
        p.column_widths@ == q.column_widths@,
        p.term_size == q.term_size,
        p.render_config.min_buffer == q.render_config.min_buffer,
        p.render_config.max_buffer == q.render_config.max_buffer,
    ensures
        p.aggregate_layout(&agg) == q.aggregate_layout(&agg),
{
}

/// A record without fields, on a layout with no columns yet and without a template, is
/// rendered as its raw text with trailing white space removed.
pub proof fn lemma_raw_record(p: PrettyPrinter, rec: Record)
    requires
        p.render_config.format is None,
        p.column_order@.len() == 0,
        rec.fields@.len() == 0,
    ensures
        p.record_text(&rec) == Ok::<Seq<char>, RenderError>(trimmed(rec.raw@)),
{
    assert(p.column_order@ + new_names(p.column_order@, rec.fields@) =~= Seq::<String>::empty());
}

/// Layout state and formatters.
pub struct PrettyPrinter {
    pub render_config: RenderConfig,
    pub column_widths: Vec<ColumnWidth>,
    pub column_order: Vec<String>,
    pub term_size: Option<TerminalSize>,
}

impl PrettyPrinter {
    /// Tracked widths and the column order each hold every name at most once.
    pub open spec fn wf(&self) -> bool {
        distinct_widths(self.column_widths@) && distinct_names(self.column_order@)
    }

    pub open spec fn min_b(&self) -> nat {
        self.render_config.min_buffer as nat
    }

    pub open spec fn max_b(&self) -> nat {
        self.render_config.max_buffer as nat
    }

    /// Widths, column order and text of a columnar record render from this state.
    pub open spec fn record_layout(&self, rec: &Record) -> (Seq<ColumnWidth>, Seq<String>, Seq<char>) {
        let fs = rec.fields@;
        let w1 = absorb(self.column_widths@, fs, self.min_b(), self.max_b());
        let o1 = self.column_order@ + new_names(self.column_order@, fs);
        if o1.len() == 0 {
            (w1, o1, trimmed(rec.raw@))
        } else if overflows(w1, self.term_size) {
            let w2 = absorb(Seq::empty(), fs, self.min_b(), self.max_b());
            let o2 = new_names(Seq::empty(), fs);
            (w2, o2, trimmed(record_cells(o2, fs, w2, !overflows(w2, self.term_size))))
        } else {
            (w1, o1, trimmed(record_cells(o1, fs, w1, true)))
        }
    }

    /// Text of a record render from this state, or the template's failure.
    pub open spec fn record_text(&self, rec: &Record) -> Result<Seq<char>, RenderError> {
        match self.render_config.format {
            Some(t) => match interpolation_of(t@, field_pairs(rec.fields@)) {
                Some(x) => Ok(x),
                None => Err(RenderError::Template),
            },
            None => Ok(self.record_layout(rec).2),
        }
    }

    /// `after` is this state once `rec` has been rendered.
    pub open spec fn record_state(&self, after: &PrettyPrinter, rec: &Record) -> bool {
        match self.render_config.format {
            Some(_) => *after == *self,
            None => {
                let l = self.record_layout(rec);
                &&& after.column_widths@ == l.0
                &&& after.column_order@ == l.1
                &&& after.render_config == self.render_config
                &&& after.term_size == self.term_size
            },
        }
    }

    /// `after` is this state once `agg` has been rendered.
    pub open spec fn aggregate_state(&self, after: &PrettyPrinter, agg: &Aggregate) -> bool {
        &&& after.column_widths@ == self.aggregate_layout(agg).0
        &&& after.column_order == self.column_order
        &&& after.render_config == self.render_config
        &&& after.term_size == self.term_size
    }

    pub fn new(render_config: RenderConfig, term_size: Option<TerminalSize>) -> (r: Self)
        ensures
            r.render_config == render_config,
            r.term_size == term_size,
            r.column_widths@ == Seq::<ColumnWidth>::empty(),
            r.column_order@ == Seq::<String>::empty(),
            r.wf(),
    {
        PrettyPrinter {
            render_config,
            term_size,
            column_widths: Vec::new(),
            column_order: Vec::new(),
        }
    }

    /// The tracked widths after the fields have been seen.
    pub fn compute_column_widths(&self, fields: &Vec<Field>) -> (r: Vec<ColumnWidth>)
        ensures
            r@ == absorb(self.column_widths@, fields@, self.min_b(), self.max_b()),
    {
        let mut r = copy_widths(&self.column_widths);
        absorb_into(&mut r, fields, self.render_config.min_buffer, self.render_config.max_buffer);
        r
    }

    /// Field names not yet in the column order, each once, sorted.
    pub fn new_columns(&self, fields: &Vec<Field>) -> (r: Vec<String>)
        ensures
            r@ == new_names(self.column_order@, fields@),
            strictly_sorted(r@),
    {
        proof {
            lemma_new_names_sorted(self.column_order@, fields@);
        }
        let mut r: Vec<String> = Vec::new();
        let mut i: usize = 0;
        assert(fields@.take(0) =~= Seq::<Field>::empty());
        while i < fields.len()
            invariant
                i <= fields@.len(),
                r@ == new_names(self.column_order@, fields@.take(i as int)),
            decreases fields@.len() - i,
        {
            let n = &fields[i].name;
            proof {
                assert(fields@.take(i + 1).drop_last() =~= fields@.take(i as int));
                assert(fields@.take(i + 1).last() == fields@[i as int]);
            }
            if !contains_name(&self.column_order, n) && !contains_name(&r, n) {
                insert_in_order(&mut r, n.clone());
            }
            i = i + 1;
        }
        assert(fields@.take(i as int) =~= fields@);
        r
    }

    /// Whether a record layout over the tracked widths is wider than the terminal.
    pub fn overflows_term(&self) -> (r: bool)
        ensures
            r == overflows(self.column_widths@, self.term_size),
    {
        match self.term_size {
            None => false,
            Some(t) => match projected_width(&self.column_widths) {
                None => true,
                Some(n) => n > t.width as usize,
            },
        }
    }

    /// The cells of the column order for `record`, trimmed.
    fn record_line(&self, record: &Record, padded: bool) -> (r: String)
        ensures
            r@ == trimmed(
                record_cells(self.column_order@, record.fields@, self.column_widths@, padded),
            ),
    {
        let mut s = String::new();
        let mut i: usize = 0;
        assert(self.column_order@.take(0) =~= Seq::<String>::empty());
        while i < self.column_order.len()
            invariant
                i <= self.column_order@.len(),
                s@ == record_cells(
                    self.column_order@.take(i as int),
                    record.fields@,
                    self.column_widths@,
                    padded,
                ),
            decreases self.column_order@.len() - i,
        {
            let name = &self.column_order[i];
            let w = width_lookup(&self.column_widths, name);
            push_record_cell(&mut s, &record.fields, name, w, padded);
            proof {
                assert(self.column_order@.take(i + 1).drop_last() =~= self.column_order@.take(
                    i as int,
                ));
                assert(self.column_order@.take(i + 1).last() == self.column_order@[i as int]);
            }
            i = i + 1;
        }
        assert(self.column_order@.take(i as int) =~= self.column_order@);
        trim_end(s.as_str())
    }

    /// Lays a record out as aligned `[name=value]` cells, growing the tracked widths and
    /// columns; a layout wider than the terminal is reset once to this record's fields,
    /// and left unpadded when it still does not fit.
    pub fn format_record_as_columns(&mut self, record: &Record) -> (r: String)
        ensures
            (final(self).column_widths@, final(self).column_order@, r@) == old(self).record_layout(
                record,
            ),
            final(self).render_config == old(self).render_config,
            final(self).term_size == old(self).term_size,
            old(self).wf() ==> final(self).wf(),
    {
        proof {
            let fs = record.fields@;
            if old(self).wf() {
                lemma_absorb_distinct(old(self).column_widths@, fs, self.min_b(), self.max_b());
                lemma_order_distinct(old(self).column_order@, fs);
            }
            lemma_absorb_distinct(Seq::empty(), fs, self.min_b(), self.max_b());
            lemma_order_distinct(Seq::empty(), fs);
            assert(Seq::<String>::empty() + new_names(Seq::empty(), fs) =~= new_names(Seq::empty(), fs));
        }
        let w1 = self.compute_column_widths(&record.fields);
        let mut nc = self.new_columns(&record.fields);
        self.column_widths = w1;
        self.column_order.append(&mut nc);
        if self.column_order.len() == 0 {
            return trim_end(record.raw.as_str());
        }
        let padded = if self.overflows_term() {
            let mut w2: Vec<ColumnWidth> = Vec::new();
            absorb_into(
                &mut w2,
                &record.fields,
                self.render_config.min_buffer,
                self.render_config.max_buffer,
            );
            self.column_widths = w2;
            self.column_order = Vec::new();
            let o2 = self.new_columns(&record.fields);
            self.column_order = o2;
            !self.overflows_term()
        } else {
            true
        };
        self.record_line(record, padded)
    }

    /// Formats a record: through the template when one is configured, which leaves the
    /// layout state alone, else as columns.
    pub fn format_record(&mut self, record: &Record) -> (r: Result<String, RenderError>)
        ensures
            old(self).record_state(final(self), record),
            r is Ok <==> old(self).record_text(record) is Ok,
            r is Ok ==> r->Ok_0@ == old(self).record_text(record)->Ok_0,
            r is Err ==> r->Err_0 == old(self).record_text(record)->Err_0,
            old(self).wf() ==> final(self).wf(),
    {
        match self.render_config.format {
            Some(ref t) => match interpolate(t, &record.fields) {
                Ok(s) => Ok(s),
                Err(_) => Err(RenderError::Template),
            },
            None => Ok(self.format_record_as_columns(record)),
        }
    }
    /// Widths, after the rows and any shrinking, and text of an aggregate render.
    pub open spec fn aggregate_layout(&self, agg: &Aggregate) -> (Seq<ColumnWidth>, Seq<char>) {
        if agg.rows@.len() == 0 {
            (self.column_widths@, "No data\n"@)
        } else {
            let w1 = absorb_rows(self.column_widths@, agg.rows@, self.min_b(), self.max_b());
            let w2 = resized(w1, agg.columns@, table_budget(self.term_size));
            let ls = table_lines(agg.columns@, agg.rows@, w2);
            (w2, clip_to(joined_lines(ls), line_budget(self.term_size)))
        }
    }

    /// Width budget of an aggregate table: the terminal's width, else 240.
    pub fn max_width(&self) -> (r: u16)
        ensures
            r == table_budget(self.term_size),
    {
        match self.term_size {
            None => DEFAULT_TABLE_WIDTH,
            Some(t) => t.width,
        }
    }

    /// Whether the tracked widths add up to no more than the table budget.
    pub fn fits_within_term_agg(&self) -> (r: bool)
        ensures
            r == (width_total(self.column_widths@) <= table_budget(self.term_size)),
    {
        let budget = self.max_width() as usize;
        let mut acc: usize = 0;
        let mut i: usize = 0;
        assert(self.column_widths@.take(0) =~= Seq::<ColumnWidth>::empty());
        while i < self.column_widths.len()
            invariant
                i <= self.column_widths@.len(),
                acc == width_total(self.column_widths@.take(i as int)),
                acc <= budget,
                budget == table_budget(self.term_size),
            decreases self.column_widths@.len() - i,
        {
            proof {
                assert(self.column_widths@.take(i + 1).drop_last() =~= self.column_widths@.take(i as int));
                assert(self.column_widths@.take(i + 1).last() == self.column_widths@[i as int]);
                lemma_total_prefix(self.column_widths@, i + 1);
                assert(width_total(self.column_widths@.take(i + 1)) == acc + self.column_widths@[i as int].width);
            }
            if self.column_widths[i].width > budget - acc {
                proof {
                    assert(width_total(self.column_widths@.take(i + 1)) > budget);
                    assert(width_total(self.column_widths@) > budget);
                }
                return false;
            }
            acc = acc + self.column_widths[i].width;
            i = i + 1;
        }
        assert(self.column_widths@.take(i as int) =~= self.column_widths@);
        true
    }

    /// The tracked widths, shrunk to the table budget along `ordering` when they exceed it.
    pub fn resize_widths_to_fit(&self, ordering: &Vec<String>) -> (r: Vec<ColumnWidth>)
        ensures
            r@ == resized(self.column_widths@, ordering@, table_budget(self.term_size)),
            width_total(r@) <= table_budget(self.term_size),
    {
        proof {
            lemma_resized_within_budget(
                self.column_widths@,
                ordering@,
                table_budget(self.term_size),
            );
        }
        if self.fits_within_term_agg() {
            return copy_widths(&self.column_widths);
        }
        let ghost budget = table_budget(self.term_size);
        let tracked_len = self.column_widths.len();
        let mut rem = self.max_width() as usize;
        let mut acc: Vec<ColumnWidth> = Vec::new();
        let mut i: usize = 0;
        while i < ordering.len()
            invariant
                i <= ordering@.len(),
                tracked_len == self.column_widths@.len(),
                (acc@, rem as nat) == shrink_state(
                    self.column_widths@,
                    ordering@,
                    budget,
                    i as nat,
                ),
            decreases ordering@.len() - i,
        {
            let col = &ordering[i];
            let w = width_lookup(&self.column_widths, col);
            let share = if tracked_len > i {
                rem / (tracked_len - i)
            } else {
                rem
            };
            proof {
                if tracked_len > i {
                    let d = (tracked_len - i) as nat;
                    assert(rem as nat / d <= rem) by (nonlinear_arith)
                        requires
                            d >= 1,
                    ;
                }
            }
            if w < share {
                put_width(&mut acc, col, w);
                rem = rem - w;
            } else {
                put_width(&mut acc, col, share);
                rem = rem - share;
            }
            i = i + 1;
        }
        acc
    }

    /// Column names padded to their widths, before trimming.
    fn header_line(&self, columns: &Vec<String>) -> (r: String)
        ensures
            r@ == header_cells(columns@, self.column_widths@),
    {
        let mut s = String::new();
        let mut i: usize = 0;
        assert(columns@.take(0) =~= Seq::<String>::empty());
        while i < columns.len()
            invariant
                i <= columns@.len(),
                s@ == header_cells(columns@.take(i as int), self.column_widths@),
            decreases columns@.len() - i,
        {
            let w = width_lookup(&self.column_widths, &columns[i]);
            push_padded(&mut s, columns[i].as_str(), w);
            proof {
                assert(columns@.take(i + 1).drop_last() =~= columns@.take(i as int));
                assert(columns@.take(i + 1).last() == columns@[i as int]);
            }
            i = i + 1;
        }
        assert(columns@.take(i as int) =~= columns@);
        s
    }

    /// One table row: each cell fitted to its column's width, trimmed.
    pub fn format_aggregate_row(&self, columns: &Vec<String>, row: &Vec<Field>) -> (r: String)
        ensures
            r@ == trimmed(row_cells(columns@, row@, self.column_widths@)),
    {
        let mut s = String::new();
        let mut i: usize = 0;
        assert(columns@.take(0) =~= Seq::<String>::empty());
        while i < columns.len()
            invariant
                i <= columns@.len(),
                s@ == row_cells(columns@.take(i as int), row@, self.column_widths@),
            decreases columns@.len() - i,
        {
            let w = width_lookup(&self.column_widths, &columns[i]);
            let cell = match find_field(row, &columns[i]) {
                Some(j) => format_with_ellipsis(row[j].value.as_str(), w),
                None => format_with_ellipsis("", w),
            };
            proof {
                reveal_strlit("");
            }
            s.append(cell.as_str());
            proof {
                assert(columns@.take(i + 1).drop_last() =~= columns@.take(i as int));
                assert(columns@.take(i + 1).last() == columns@[i as int]);
            }
            i = i + 1;
        }
        assert(columns@.take(i as int) =~= columns@);
        trim_end(s.as_str())
    }

    /// Renders an aggregate snapshot as a table: widths grow over all rows and shrink to
    /// the budget, each cell is fitted to its column, and with a known terminal height
    /// only the leading lines that leave one line free are kept.
    pub fn format_aggregate(&mut self, aggregate: &Aggregate) -> (r: String)
        ensures
            old(self).aggregate_state(final(self), aggregate),
            r@ == old(self).aggregate_layout(aggregate).1,
            old(self).wf() ==> final(self).wf(),
    {
        proof {
            if old(self).wf() {
                let w1 = absorb_rows(old(self).column_widths@, aggregate.rows@, self.min_b(), self.max_b());
                lemma_absorb_rows_distinct(old(self).column_widths@, aggregate.rows@, self.min_b(), self.max_b());
                lemma_shrink_distinct(w1, aggregate.columns@, table_budget(self.term_size), aggregate.columns@.len());
            }
        }
        if aggregate.rows.len() == 0 {
            return String::from_str("No data\n");
        }
        let ghost w0 = self.column_widths@;
        let rows = &aggregate.rows;
        let mut i: usize = 0;
        assert(rows@.take(0) =~= Seq::<Vec<Field>>::empty());
        while i < rows.len()
            invariant
                i <= rows@.len(),
                self.column_widths@ == absorb_rows(w0, rows@.take(i as int), self.min_b(), self.max_b()),
                self.column_order == old(self).column_order,
                self.render_config == old(self).render_config,
                self.term_size == old(self).term_size,
            decreases rows@.len() - i,
        {
            let min_b = self.render_config.min_buffer;
            let max_b = self.render_config.max_buffer;
            absorb_into(&mut self.column_widths, &rows[i], min_b, max_b);
            proof {
                assert(rows@.take(i + 1).drop_last() =~= rows@.take(i as int));
                assert(rows@.take(i + 1).last() == rows@[i as int]);
            }
            i = i + 1;
        }
        assert(rows@.take(i as int) =~= rows@);
        let resized_widths = self.resize_widths_to_fit(&aggregate.columns);
        self.column_widths = resized_widths;
        let header = self.header_line(&aggregate.columns);
        let header_len = header.as_str().unicode_len();
        let mut lines: Vec<String> = Vec::new();
        lines.push(trim_end(header.as_str()));
        lines.push(dash_line(header_len));
        let ghost tl = table_lines(aggregate.columns@, rows@, self.column_widths@);
        let mut j: usize = 0;
        while j < rows.len()
            invariant
                j <= rows@.len(),
                tl == table_lines(aggregate.columns@, rows@, self.column_widths@),
                string_views(lines@) == tl.take(j + 2),
                lines@.len() == j + 2,
            decreases rows@.len() - j,
        {
            let line = self.format_aggregate_row(&aggregate.columns, &rows[j]);
            assert(tl[j + 2] == line@);
            let ghost before = lines@;
            lines.push(line);
            proof {
                assert(lines@ == before.push(line));
                assert forall|m: int| 0 <= m < j + 3 implies string_views(lines@)[m] == tl[m] by {
                    if m < j + 2 {
                        assert(lines@[m] == before[m]);
                        assert(string_views(before)[m] == tl.take(j + 2)[m]);
                    }
                }
                assert(string_views(lines@) =~= tl.take(j + 3));
            }
            j = j + 1;
        }
        assert(tl.take(j + 2) =~= tl);
        match self.term_size {
            None => {
                assert(string_views(lines@).take(lines@.len() as int) =~= string_views(lines@));
                join_lines(&lines, lines.len())
            },
            Some(t) => {
                let k: usize = if t.height == 0 {
                    0
                } else {
                    (t.height - 1) as usize
                };
                clip_joined(&lines, k)
            },
        }
    }
}

} // verus!
