use vstd::prelude::*;

use vstd::string::{StringExecFns, StringSliceAdditionalSpecFns};

use crate::text::{lowercase, lowercased, regex_compiles, regex_finds, trim_text, trimmed, PathRegex};
use crate::wildcard::{glob, wildcard_match};

use crate::engine::reversed;

verus! {

/// One row of a result list: a group header, or a file with its columns.
#[derive(Debug)]
pub struct ResultRow {
    pub checked: bool,
    pub header_row: bool,
    pub val_int: Vec<i32>,
    pub val_str: Vec<String>,
}

impl ResultRow {
    pub fn new(checked: bool, header_row: bool, val_int: Vec<i32>, val_str: Vec<String>) -> (r: ResultRow)
        ensures
            r.checked == checked,
            r.header_row == header_row,
            r.val_int@ == val_int@,
            r.val_str@ == val_str@,
    {
        ResultRow { checked, header_row, val_int, val_str }
    }
}

/// Where a result list keeps each column of its rows.
#[derive(Clone, Copy, Debug, PartialEq, Eq, Structural)]
pub struct ColumnLayout {
    pub is_header_mode: bool,
    pub str_name_idx: usize,
    pub str_path_idx: usize,
    pub int_modification_date_idx: usize,
    pub int_size_idx: usize,
    pub int_pixel_count_idx: usize,
}

impl ColumnLayout {
    /// The columns of the similar-images list: strings (similarity, size,
    /// resolution, name, path, modification date) and integers (date high,
    /// date low, size high, size low, width, height, pixel count).
    pub fn similar_images() -> (r: ColumnLayout)
        ensures
            r.is_header_mode,
            r.str_name_idx == 3 && r.str_path_idx == 4,
            r.int_modification_date_idx == 0 && r.int_size_idx == 2 && r.int_pixel_count_idx == 6,
    {
        ColumnLayout {
            is_header_mode: true,
            str_name_idx: 3,
            str_path_idx: 4,
            int_modification_date_idx: 0,
            int_size_idx: 2,
            int_pixel_count_idx: 6,
        }
    }
}

/// Column by which rows of a group are compared.
#[derive(Clone, Copy, Debug, PartialEq, Eq, Structural)]
pub enum Property {
    Size,
    Date,
    PathLength,
    Resolution,
}

/// The 64-bit value whose high and low halves are the bits of `high` and `low`.
pub open spec fn joined(high: i32, low: i32) -> u64 {
    ((high as u32) as int * 0x1_0000_0000 + (low as u32) as int) as u64
}

pub fn connect_i32_into_u64(high: i32, low: i32) -> (r: u64)
    ensures
        r == joined(high, low),
{
    (high as u32 as u64) * 0x1_0000_0000 + (low as u32 as u64)
}

/// The two halves of `value`, high first, as `connect_i32_into_u64` joins them.
pub fn split_u64_into_i32s(value: u64) -> (r: (i32, i32))
    ensures
        joined(r.0, r.1) == value,
{
    let high = (value / 0x1_0000_0000) as u32;
    let low = (value % 0x1_0000_0000) as u32;
    let h = high as i32;
    let l = low as i32;
    assert(h as u32 == high && l as u32 == low) by (bit_vector)
        requires
            h == high as i32,
            l == low as i32,
    ;
    (h, l)
}

/// The rows hold the same data, whatever their check marks.
pub open spec fn same_row_data(a: ResultRow, b: ResultRow) -> bool {
    &&& a.header_row == b.header_row
    &&& a.val_int@ == b.val_int@
    &&& a.val_str@ == b.val_str@
}

pub open spec fn has_field(row: ResultRow, property: Property, layout: ColumnLayout) -> bool {
    match property {
        Property::Size => layout.int_size_idx + 1 < row.val_int@.len(),
        Property::Date => layout.int_modification_date_idx + 1 < row.val_int@.len(),
        Property::PathLength => layout.str_path_idx < row.val_str@.len(),
        Property::Resolution => layout.int_pixel_count_idx < row.val_int@.len(),
    }
}

/// The value by which `row` is compared under `property`; a path counts
/// its UTF-8 bytes.
pub open spec fn field_value(row: ResultRow, property: Property, layout: ColumnLayout) -> u64 {
    match property {
        Property::Size => joined(
            row.val_int@[layout.int_size_idx as int],
            row.val_int@[layout.int_size_idx + 1],
        ),
        Property::Date => joined(
            row.val_int@[layout.int_modification_date_idx as int],
            row.val_int@[layout.int_modification_date_idx + 1],
        ),
        Property::PathLength => (vstd::utf8::encode_utf8(row.val_str@[layout.str_path_idx as int]@).len() as usize) as u64,
        Property::Resolution => widened(row.val_int@[layout.int_pixel_count_idx as int]),
    }
}

/// `v` as a 64-bit unsigned value, with the sign extended.
pub open spec fn widened(v: i32) -> u64 {
    if v >= 0 {
        v as u64
    } else {
        (v + 0x1_0000_0000_0000_0000) as u64
    }
}

fn widen(v: i32) -> (r: u64)
    ensures
        r == widened(v),
{
    if v >= 0 {
        v as u64
    } else {
        u64::MAX - ((-(v as i64) - 1) as u64)
    }
}

pub fn extract_comparable_field(model: &ResultRow, property: Property, layout: ColumnLayout) -> (r: u64)
    requires
        has_field(*model, property, layout),
    ensures
        r == field_value(*model, property, layout),
{
    match property {
        Property::Size => {
            let k = layout.int_size_idx;
            let n = model.val_int.len();
            assert(k + 1 < n);
            let high = model.val_int[k];
            let low = model.val_int[k + 1];
            connect_i32_into_u64(high, low)
        },
        Property::Date => {
            let k = layout.int_modification_date_idx;
            let n = model.val_int.len();
            assert(k + 1 < n);
            let high = model.val_int[k];
            let low = model.val_int[k + 1];
            connect_i32_into_u64(high, low)
        },
        Property::PathLength => {
            let s = model.val_str[layout.str_path_idx].as_str();
            assert(s@ == model.val_str@[layout.str_path_idx as int]@);
            let n = s.len();
            assert(n == s.spec_bytes().len() as usize);
            n as u64
        },
        Property::Resolution => widen(model.val_int[layout.int_pixel_count_idx]),
    }
}


/// A change applied to the check marks of a whole list.
#[derive(Clone, Copy, Debug, PartialEq, Eq, Structural)]
pub enum Marking {
    SelectAll,
    DeselectAll,
    Invert,
}

/// The check mark of `r` after `m`: headers keep theirs, except that
/// deselecting clears every row.
pub open spec fn marked(m: Marking, r: ResultRow) -> bool {
    match m {
        Marking::SelectAll => if r.header_row {
            r.checked
        } else {
            true
        },
        Marking::DeselectAll => false,
        Marking::Invert => if r.header_row {
            r.checked
        } else {
            !r.checked
        },
    }
}

/// Rows of `s` that `m` checks.
pub open spec fn count_turned_on(s: Seq<ResultRow>, m: Marking) -> nat
    decreases s.len(),
{
    if s.len() == 0 {
        0
    } else {
        count_turned_on(s.drop_last(), m) + if !s.last().checked && marked(m, s.last()) {
            1nat
        } else {
            0nat
        }
    }
}

/// Rows of `s` that `m` unchecks.
pub open spec fn count_turned_off(s: Seq<ResultRow>, m: Marking) -> nat
    decreases s.len(),
{
    if s.len() == 0 {
        0
    } else {
        count_turned_off(s.drop_last(), m) + if s.last().checked && !marked(m, s.last()) {
            1nat
        } else {
            0nat
        }
    }
}

/// `new` is `old` with each check mark replaced as `m` says.
pub open spec fn remarked(old: Seq<ResultRow>, new: Seq<ResultRow>, m: Marking) -> bool {
    &&& new.len() == old.len()
    &&& forall|i: int|
        0 <= i < old.len() ==> same_row_data(#[trigger] new[i], old[i]) && new[i].checked == marked(m, old[i])
}

/// Applies `m` to every row; returns how many rows it checked and unchecked.
pub fn apply_marking(rows: Vec<ResultRow>, m: Marking) -> (r: (u64, u64, Vec<ResultRow>))
    ensures
        remarked(rows@, r.2@, m),
        r.0 == count_turned_on(rows@, m),
        r.1 == count_turned_off(rows@, m),
{
    let ghost orig = rows@;
    let n = rows.len();
    let mut pending = reversed(rows);
    let mut out: Vec<ResultRow> = Vec::new();
    let mut on: u64 = 0;
    let mut off: u64 = 0;
    let mut i: usize = 0;
    while i < n
        invariant
            n == orig.len(),
            i <= n,
            pending@.len() + i == n,
            forall|k: int| 0 <= k < pending@.len() ==> #[trigger] pending@[k] == orig[n - 1 - k],
            remarked(orig.take(i as int), out@, m),
            on == count_turned_on(orig.take(i as int), m),
            off == count_turned_off(orig.take(i as int), m),
            on <= i,
            off <= i,
        decreases n - i,
    {
        let mut row = pending.pop().unwrap();
        assert(row == orig[i as int]);
        let ghost before = row;
        let next = match m {
            Marking::SelectAll => if row.header_row {
                row.checked
            } else {
                true
            },
            Marking::DeselectAll => false,
            Marking::Invert => if row.header_row {
                row.checked
            } else {
                !row.checked
            },
        };
        if !row.checked && next {
            on = on + 1;
        }
        if row.checked && !next {
            off = off + 1;
        }
        row.checked = next;
        out.push(row);
        proof {
            assert(orig.take(i + 1).drop_last() =~= orig.take(i as int));
            assert(orig.take(i + 1).last() == before);
        }
        i = i + 1;
    }
    assert(orig.take(n as int) =~= orig);
    (on, off, out)
}

/// Checks every row but the headers.
pub fn select_all(model: Vec<ResultRow>) -> (r: (u64, u64, Vec<ResultRow>))
    ensures
        remarked(model@, r.2@, Marking::SelectAll),
        r.0 == count_turned_on(model@, Marking::SelectAll),
        r.1 == 0,
        r.1 == count_turned_off(model@, Marking::SelectAll),
{
    let r = apply_marking(model, Marking::SelectAll);
    proof {
        lemma_select_all_unchecks_nothing(model@);
    }
    r
}

proof fn lemma_select_all_unchecks_nothing(s: Seq<ResultRow>)
    ensures
        count_turned_off(s, Marking::SelectAll) == 0,
    decreases s.len(),
{
    if s.len() > 0 {
        lemma_select_all_unchecks_nothing(s.drop_last());
    }
}

proof fn lemma_deselect_all_checks_nothing(s: Seq<ResultRow>)
    ensures
        count_turned_on(s, Marking::DeselectAll) == 0,
    decreases s.len(),
{
    if s.len() > 0 {
        lemma_deselect_all_checks_nothing(s.drop_last());
    }
}

/// Unchecks every row, headers included.
pub fn deselect_all(model: Vec<ResultRow>) -> (r: (u64, u64, Vec<ResultRow>))
    ensures
        remarked(model@, r.2@, Marking::DeselectAll),
        r.0 == 0,
        r.0 == count_turned_on(model@, Marking::DeselectAll),
        r.1 == count_turned_off(model@, Marking::DeselectAll),
{
    let r = apply_marking(model, Marking::DeselectAll);
    proof {
        lemma_deselect_all_checks_nothing(model@);
    }
    r
}

/// Flips the check mark of every row but the headers.
pub fn invert_selection(model: Vec<ResultRow>) -> (r: (u64, u64, Vec<ResultRow>))
    ensures
        remarked(model@, r.2@, Marking::Invert),
        r.0 == count_turned_on(model@, Marking::Invert),
        r.1 == count_turned_off(model@, Marking::Invert),
{
    apply_marking(model, Marking::Invert)
}

/// `h` lists the positions of the header rows of `rows` in increasing
/// order, followed by the length of `rows`.
pub open spec fn header_bounds(rows: Seq<ResultRow>, h: Seq<usize>) -> bool {
    &&& h.len() >= 1
    &&& h.last() == rows.len()
    &&& forall|a: int, b: int| 0 <= a < b < h.len() ==> h[a] < h[b]
    &&& forall|k: int| 0 <= k < h.len() - 1 ==> #[trigger] rows[h[k] as int].header_row && h[k] < rows.len()
    &&& forall|i: int| 0 <= i < rows.len() && #[trigger] rows[i].header_row ==> h.contains(i as usize)
}

/// Unchecks every row but the headers and returns the header positions,
/// followed by the number of rows.
pub fn find_header_idx_and_deselect_all(old_data: &mut Vec<ResultRow>) -> (r: Vec<usize>)
    ensures
        final(old_data)@.len() == old(old_data)@.len(),
        forall|i: int|
            0 <= i < old(old_data)@.len() ==> same_row_data(#[trigger] final(old_data)@[i], old(old_data)@[i])
                && final(old_data)@[i].checked == (old(old_data)@[i].header_row && old(old_data)@[i].checked),
        header_bounds(old(old_data)@, r@),
{
    let ghost orig = old_data@;
    let mut rows: Vec<ResultRow> = Vec::new();
    core::mem::swap(old_data, &mut rows);
    let n = rows.len();
    let mut pending = reversed(rows);
    let mut headers: Vec<usize> = Vec::new();
    let mut i: usize = 0;
    while i < n
        invariant
            n == orig.len(),
            i <= n,
            pending@.len() + i == n,
            forall|k: int| 0 <= k < pending@.len() ==> #[trigger] pending@[k] == orig[n - 1 - k],
            old_data@.len() == i,
            forall|k: int|
                0 <= k < i ==> same_row_data(#[trigger] old_data@[k], orig[k]) && old_data@[k].checked == (
                orig[k].header_row && orig[k].checked),
            forall|a: int, b: int| 0 <= a < b < headers@.len() ==> headers@[a] < headers@[b],
            forall|k: int| 0 <= k < headers@.len() ==> #[trigger] headers@[k] < i && orig[headers@[k] as int].header_row,
            forall|k: int| 0 <= k < i && #[trigger] orig[k].header_row ==> headers@.contains(k as usize),
        decreases n - i,
    {
        let mut row = pending.pop().unwrap();
        assert(row == orig[i as int]);
        let ghost prev = headers@;
        if row.header_row {
            headers.push(i);
            proof {
                assert forall|k: int| 0 <= k < i + 1 && #[trigger] orig[k].header_row implies headers@.contains(
                    k as usize,
                ) by {
                    if k < i {
                        let j = choose|j: int| 0 <= j < prev.len() && prev[j] == k as usize;
                        assert(headers@[j] == k as usize);
                    } else {
                        assert(headers@[headers@.len() - 1] == k as usize);
                    }
                }
            }
        } else {
            row.checked = false;
        }
        old_data.push(row);
        i = i + 1;
    }
    let ghost prev = headers@;
    headers.push(n);
    proof {
        assert forall|k: int| 0 <= k < n && #[trigger] orig[k].header_row implies headers@.contains(k as usize) by {
            let j = choose|j: int| 0 <= j < prev.len() && prev[j] == k as usize;
            assert(headers@[j] == k as usize);
        }
        assert forall|k: int| 0 <= k < headers@.len() - 1 implies #[trigger] orig[headers@[k] as int].header_row
            && headers@[k] < orig.len() by {
            assert(headers@[k] == prev[k]);
        }
    }
    headers
}


/// `[s, e)` is a maximal run of non-header rows.
pub open spec fn is_run(rows: Seq<ResultRow>, s: int, e: int) -> bool {
    &&& 0 <= s < e <= rows.len()
    &&& forall|i: int| s <= i < e ==> !(#[trigger] rows[i]).header_row
    &&& s == 0 || rows[s - 1].header_row
    &&& e == rows.len() || rows[e].header_row
}

pub open spec fn has_file_row(rows: Seq<ResultRow>) -> bool {
    exists|i: int| 0 <= i < rows.len() && !(#[trigger] rows[i]).header_row
}

/// The ranges of rows between headers: each maximal run of non-header rows,
/// in order; a non-empty list of headers alone counts as one range.
pub fn collect_group_ranges(old_data: &Vec<ResultRow>) -> (r: Vec<(usize, usize)>)
    ensures
        has_file_row(old_data@) ==> {
            &&& forall|k: int| 0 <= k < r@.len() ==> is_run(old_data@, (#[trigger] r@[k]).0 as int, r@[k].1 as int)
            &&& forall|k: int| 0 <= k < r@.len() - 1 ==> (#[trigger] r@[k]).1 < r@[k + 1].0
            &&& forall|i: int|
                0 <= i < old_data@.len() && !(#[trigger] old_data@[i]).header_row ==> exists|k: int|
                    0 <= k < r@.len() && (#[trigger] r@[k]).0 <= i < r@[k].1
        },
        !has_file_row(old_data@) && old_data@.len() > 0 ==> r@ == seq![(0usize, old_data@.len() as usize)],
        old_data@.len() == 0 ==> r@.len() == 0,
{
    let rows = old_data;
    let n = rows.len();
    let mut ranges: Vec<(usize, usize)> = Vec::new();
    let mut group_start: usize = 0;
    let mut idx: usize = 0;
    while idx < n
        invariant
            n == rows@.len(),
            group_start <= idx <= n,
            group_start == 0 || rows@[group_start - 1].header_row,
            forall|i: int| group_start <= i < idx ==> !(#[trigger] rows@[i]).header_row,
            forall|k: int| 0 <= k < ranges@.len() ==> is_run(rows@, (#[trigger] ranges@[k]).0 as int, ranges@[k].1 as int),
            forall|k: int| 0 <= k < ranges@.len() - 1 ==> (#[trigger] ranges@[k]).1 < ranges@[k + 1].0,
            ranges@.len() > 0 ==> ranges@.last().1 < group_start,
            forall|i: int|
                0 <= i < group_start && !(#[trigger] rows@[i]).header_row ==> exists|k: int|
                    0 <= k < ranges@.len() && (#[trigger] ranges@[k]).0 <= i < ranges@[k].1,
        decreases n - idx,
    {
        if rows[idx].header_row {
            if group_start < idx {
                let ghost prev = ranges@;
                ranges.push((group_start, idx));
                proof {
                    assert forall|i: int| 0 <= i < idx + 1 && !(#[trigger] rows@[i]).header_row implies exists|k: int|
                        0 <= k < ranges@.len() && (#[trigger] ranges@[k]).0 <= i < ranges@[k].1 by {
                        if i < group_start {
                            let k = choose|k: int| 0 <= k < prev.len() && (#[trigger] prev[k]).0 <= i < prev[k].1;
                            assert(ranges@[k] == prev[k]);
                        } else {
                            assert(ranges@[ranges@.len() - 1] == (group_start, idx));
                        }
                    }
                    assert forall|k: int| 0 <= k < ranges@.len() - 1 implies (#[trigger] ranges@[k]).1 < ranges@[k + 1].0 by {
                        if k < prev.len() - 1 {
                            assert(ranges@[k] == prev[k] && ranges@[k + 1] == prev[k + 1]);
                        }
                    }
                }
            }
            group_start = idx + 1;
        }
        idx = idx + 1;
    }
    if group_start < n {
        let ghost prev = ranges@;
        ranges.push((group_start, n));
        proof {
            assert forall|i: int| 0 <= i < n && !(#[trigger] rows@[i]).header_row implies exists|k: int|
                0 <= k < ranges@.len() && (#[trigger] ranges@[k]).0 <= i < ranges@[k].1 by {
                if i < group_start {
                    let k = choose|k: int| 0 <= k < prev.len() && (#[trigger] prev[k]).0 <= i < prev[k].1;
                    assert(ranges@[k] == prev[k]);
                } else {
                    assert(ranges@[ranges@.len() - 1] == (group_start, n));
                }
            }
            assert forall|k: int| 0 <= k < ranges@.len() - 1 implies (#[trigger] ranges@[k]).1 < ranges@[k + 1].0 by {
                if k < prev.len() - 1 {
                    assert(ranges@[k] == prev[k] && ranges@[k + 1] == prev[k + 1]);
                }
            }
        }
    }
    if ranges.len() == 0 && n > 0 {
        proof {
            if has_file_row(rows@) {
                let i = choose|i: int| 0 <= i < rows@.len() && !(#[trigger] rows@[i]).header_row;
                assert(exists|k: int| 0 <= k < ranges@.len() && (#[trigger] ranges@[k]).0 <= i < ranges@[k].1);
            }
        }
        ranges.push((0, n));
        assert(ranges@ =~= seq![(0usize, n)]);
    } else {
        proof {
            if !has_file_row(rows@) && ranges@.len() > 0 {
                let k0 = 0int;
                assert(is_run(rows@, ranges@[k0].0 as int, ranges@[k0].1 as int));
                let i = ranges@[k0].0 as int;
                assert(!rows@[i].header_row);
            }
        }
    }
    ranges
}


/// Position of the last header before row `i`, or -1.
pub open spec fn prev_header(rows: Seq<ResultRow>, i: int) -> int
    decreases i,
{
    if i <= 0 {
        -1
    } else if rows[i - 1].header_row {
        i - 1
    } else {
        prev_header(rows, i - 1)
    }
}

/// Position of the first header at or after `s`, or the number of rows.
pub open spec fn next_header(rows: Seq<ResultRow>, s: int) -> int
    decreases rows.len() - s,
{
    if s >= rows.len() {
        rows.len() as int
    } else if rows[s].header_row {
        s
    } else {
        next_header(rows, s + 1)
    }
}

pub open spec fn better(a: u64, b: u64, increasing_order: bool) -> bool {
    if increasing_order {
        a > b
    } else {
        a < b
    }
}

/// The first row of `[s, e)` with the largest value (smallest, when not
/// `increasing_order`).
pub open spec fn best_in(
    rows: Seq<ResultRow>,
    s: int,
    e: int,
    property: Property,
    layout: ColumnLayout,
    increasing_order: bool,
) -> int
    decreases e - s,
{
    if e <= s + 1 {
        s
    } else {
        let b = best_in(rows, s, e - 1, property, layout, increasing_order);
        if better(
            field_value(rows[e - 1], property, layout),
            field_value(rows[b], property, layout),
            increasing_order,
        ) {
            e - 1
        } else {
            b
        }
    }
}

/// Row `i` is the one its group picks.
pub open spec fn picked(
    rows: Seq<ResultRow>,
    i: int,
    property: Property,
    layout: ColumnLayout,
    increasing_order: bool,
) -> bool {
    let h = prev_header(rows, i);
    &&& !rows[i].header_row
    &&& h >= 0
    &&& i == best_in(rows, h + 1, next_header(rows, h + 1), property, layout, increasing_order)
}

/// Every row that follows some header holds the compared column.
pub open spec fn fields_present(rows: Seq<ResultRow>, property: Property, layout: ColumnLayout) -> bool {
    forall|i: int|
        0 <= i < rows.len() && !(#[trigger] rows[i]).header_row && prev_header(rows, i) >= 0 ==> has_field(
            rows[i],
            property,
            layout,
        )
}

/// Checked rows that are not headers.
pub open spec fn count_checked_files(s: Seq<ResultRow>) -> nat
    decreases s.len(),
{
    if s.len() == 0 {
        0
    } else {
        count_checked_files(s.drop_last()) + if s.last().checked && !s.last().header_row {
            1nat
        } else {
            0nat
        }
    }
}

proof fn lemma_best_in_range(
    rows: Seq<ResultRow>,
    s: int,
    e: int,
    property: Property,
    layout: ColumnLayout,
    increasing_order: bool,
)
    requires
        s < e,
    ensures
        s <= best_in(rows, s, e, property, layout, increasing_order) < e,
    decreases e - s,
{
    if e > s + 1 {
        lemma_best_in_range(rows, s, e - 1, property, layout, increasing_order);
    }
}

proof fn lemma_next_header_at(rows: Seq<ResultRow>, s: int, b: int)
    requires
        0 <= s <= b <= rows.len(),
        forall|i: int| s <= i < b ==> !(#[trigger] rows[i]).header_row,
        b == rows.len() || rows[b].header_row,
    ensures
        next_header(rows, s) == b,
    decreases b - s,
{
    if s < b {
        lemma_next_header_at(rows, s + 1, b);
    }
}

proof fn lemma_prev_header_at(rows: Seq<ResultRow>, a: int, i: int)
    requires
        0 <= a < i <= rows.len(),
        rows[a].header_row,
        forall|j: int| a < j < i ==> !(#[trigger] rows[j]).header_row,
    ensures
        prev_header(rows, i) == a,
    decreases i - a,
{
    if i - 1 > a {
        lemma_prev_header_at(rows, a, i - 1);
    }
}

proof fn lemma_prev_header_none(rows: Seq<ResultRow>, i: int)
    requires
        0 <= i <= rows.len(),
        forall|j: int| 0 <= j < i ==> !(#[trigger] rows[j]).header_row,
    ensures
        prev_header(rows, i) == -1,
    decreases i,
{
    if i > 0 {
        lemma_prev_header_none(rows, i - 1);
    }
}

/// No header lies strictly between two consecutive entries of `h`.
proof fn lemma_between_headers(rows: Seq<ResultRow>, h: Seq<usize>, k: int, i: int)
    requires
        header_bounds(rows, h),
        0 <= k < h.len() - 1,
        h[k] < i < h[k + 1],
    ensures
        !rows[i].header_row,
{
    if rows[i].header_row {
        let j = choose|j: int| 0 <= j < h.len() && h[j] == i as usize;
        if j <= k {
            if j < k {
                assert(h[j] < h[k]);
            }
        } else if j >= k + 1 {
            if j > k + 1 {
                assert(h[k + 1] < h[j]);
            }
        }
    }
}

/// `new` is `old` with only the picked row of each group checked, headers
/// unchanged.
pub open spec fn selected_by_property(
    old: Seq<ResultRow>,
    new: Seq<ResultRow>,
    property: Property,
    layout: ColumnLayout,
    increasing_order: bool,
) -> bool {
    &&& new.len() == old.len()
    &&& forall|i: int|
        0 <= i < old.len() ==> same_row_data(#[trigger] new[i], old[i]) && new[i].checked == if old[i].header_row {
            old[i].checked
        } else {
            picked(old, i, property, layout, increasing_order)
        }
}

/// In each group between headers, checks the first row with the largest
/// value of `property` (the smallest, when not `increasing_order`) and
/// unchecks every other row but the headers.
pub fn select_by_property(
    model: Vec<ResultRow>,
    layout: ColumnLayout,
    property: Property,
    increasing_order: bool,
) -> (r: (u64, u64, Vec<ResultRow>))
    requires
        layout.is_header_mode,
        fields_present(model@, property, layout),
    ensures
        selected_by_property(model@, r.2@, property, layout, increasing_order),
        r.0 == count_checked_files(r.2@),
        r.1 == 0,
{
    let ghost rows = model@;
    let mut data = model;
    let headers = find_header_idx_and_deselect_all(&mut data);
    let n = data.len();
    let mut picks: Vec<usize> = Vec::new();
    let mut k: usize = 0;
    proof {
        assert forall|i: int| 0 <= i < headers@[0] implies !picked(rows, i, property, layout, increasing_order) by {
            assert forall|j: int| 0 <= j < i implies !(#[trigger] rows[j]).header_row by {
                if rows[j].header_row {
                    let m = choose|m: int| 0 <= m < headers@.len() && headers@[m] == j as usize;
                    if m > 0 {
                        assert(headers@[0] < headers@[m]);
                    }
                }
            }
            lemma_prev_header_none(rows, i);
        }
    }
    while k < headers.len() - 1
        invariant
            headers@.len() >= 1,
            n == rows.len(),
            data@.len() == n,
            forall|i: int| 0 <= i < n ==> same_row_data(#[trigger] data@[i], rows[i]),
            header_bounds(rows, headers@),
            fields_present(rows, property, layout),
            k < headers@.len(),
            forall|a: int, b: int| 0 <= a < b < picks@.len() ==> picks@[a] < picks@[b],
            forall|j: int| 0 <= j < picks@.len() ==> #[trigger] picks@[j] < headers@[k as int],
            forall|j: int|
                0 <= j < picks@.len() ==> picked(rows, #[trigger] picks@[j] as int, property, layout, increasing_order),
            forall|i: int|
                0 <= i < headers@[k as int] && picked(rows, i, property, layout, increasing_order) ==> picks@.contains(
                    i as usize,
                ),
        decreases headers.len() - k,
    {
        let a = headers[k];
        let b = headers[k + 1];
        let ghost ai = a as int;
        let ghost bi = b as int;
        proof {
            assert(headers@[k as int] < headers@[k + 1]);
            assert(rows[ai].header_row);
            assert forall|i: int| ai < i < bi implies !(#[trigger] rows[i]).header_row by {
                lemma_between_headers(rows, headers@, k as int, i);
            }
            lemma_next_header_at(rows, ai + 1, bi);
            assert forall|i: int| ai < i < bi implies prev_header(rows, i) == ai by {
                lemma_prev_header_at(rows, ai, i);
            }
        }
        let ghost prev = picks@;
        if a + 1 < b {
            let s = a + 1;
            proof {
                assert(!rows[s as int].header_row);
                assert(prev_header(rows, s as int) == ai);
            }
            let mut best = s;
            let mut best_value = extract_comparable_field(&data[s], property, layout);
            let mut j = s + 1;
            while j < b
                invariant
                    n == rows.len(),
                    data@.len() == n,
                    forall|i: int| 0 <= i < n ==> same_row_data(#[trigger] data@[i], rows[i]),
                    fields_present(rows, property, layout),
                    s < j <= b <= n,
                    s == ai + 1,
                    ai >= 0,
                    forall|i: int| ai < i < bi ==> !(#[trigger] rows[i]).header_row,
                    forall|i: int| ai < i < bi ==> prev_header(rows, i) == ai,
                    bi == b,
                    best == best_in(rows, s as int, j as int, property, layout, increasing_order),
                    s <= best < j,
                    best_value == field_value(rows[best as int], property, layout),
                decreases b - j,
            {
                assert(!rows[j as int].header_row);
                assert(prev_header(rows, j as int) == ai);
                assert(has_field(rows[j as int], property, layout));
                assert(same_row_data(data@[j as int], rows[j as int]));
                let v = extract_comparable_field(&data[j], property, layout);
                let is_better = if increasing_order { v > best_value } else { v < best_value };
                if is_better {
                    best = j;
                    best_value = v;
                }
                j = j + 1;
            }
            picks.push(best);
            proof {
                lemma_best_in_range(rows, s as int, bi, property, layout, increasing_order);
                assert(picked(rows, best as int, property, layout, increasing_order));
                assert forall|i: int|
                    0 <= i < headers@[k + 1] && picked(rows, i, property, layout, increasing_order) implies picks@.contains(
                    i as usize,
                ) by {
                    if i < ai {
                        let m = choose|m: int| 0 <= m < prev.len() && prev[m] == i as usize;
                        assert(picks@[m] == i as usize);
                    } else if i > ai {
                        assert(picks@[picks@.len() - 1] == i as usize);
                    }
                }
            }
        } else {
            proof {
                assert forall|i: int|
                    0 <= i < headers@[k + 1] && picked(rows, i, property, layout, increasing_order) implies picks@.contains(
                    i as usize,
                ) by {
                    if i > ai {
                        assert(false);
                    }
                }
            }
        }
        k = k + 1;
    }
    let mut pending = reversed(data);
    let mut out: Vec<ResultRow> = Vec::new();
    let mut p: usize = 0;
    let mut checked_items: u64 = 0;
    let mut i: usize = 0;
    proof {
        assert(headers@[k as int] == n);
    }
    while i < n
        invariant
            n == rows.len(),
            i <= n,
            pending@.len() + i == n,
            forall|m: int|
                0 <= m < pending@.len() ==> same_row_data(#[trigger] pending@[m], rows[n - 1 - m])
                    && pending@[m].checked == (rows[n - 1 - m].header_row && rows[n - 1 - m].checked),
            forall|a: int, b: int| 0 <= a < b < picks@.len() ==> picks@[a] < picks@[b],
            forall|j: int|
                0 <= j < picks@.len() ==> picked(rows, #[trigger] picks@[j] as int, property, layout, increasing_order),
            forall|m: int| 0 <= m < n && picked(rows, m, property, layout, increasing_order) ==> picks@.contains(m as usize),
            forall|j: int| 0 <= j < picks@.len() ==> #[trigger] picks@[j] < n,
            p <= picks@.len(),
            forall|j: int| 0 <= j < p ==> #[trigger] picks@[j] < i,
            p < picks@.len() ==> picks@[p as int] >= i,
            out@.len() == i,
            forall|m: int|
                0 <= m < i ==> same_row_data(#[trigger] out@[m], rows[m]) && out@[m].checked == if rows[m].header_row {
                    rows[m].checked
                } else {
                    picked(rows, m, property, layout, increasing_order)
                },
            checked_items == count_checked_files(out@),
            checked_items <= i,
        decreases n - i,
    {
        let mut row = pending.pop().unwrap();
        let ghost before = out@;
        let hit = p < picks.len() && picks[p] == i;
        proof {
            if picked(rows, i as int, property, layout, increasing_order) {
                let j = choose|j: int| 0 <= j < picks@.len() && picks@[j] == i as usize;
                if j < p {
                    assert(picks@[j] < i);
                } else if j > p {
                    assert(picks@[p as int] < picks@[j]);
                }
            }
            if hit {
                assert(picked(rows, picks@[p as int] as int, property, layout, increasing_order));
            }
        }
        if hit {
            row.checked = true;
            p = p + 1;
        }
        if row.checked && !row.header_row {
            checked_items = checked_items + 1;
        }
        out.push(row);
        proof {
            assert(out@.drop_last() =~= before);
            if p < picks@.len() {
                if hit {
                    assert(picks@[p - 1] < picks@[p as int]);
                } else {
                    assert(picks@[p as int] != i);
                }
            }
        }
        i = i + 1;
    }
    (checked_items, 0, out)
}


/// Options of a selection by pattern.
#[derive(Debug)]
pub struct CustomSelectConfig {
    pub select_matches: bool,
    pub check_path: bool,
    pub check_name: bool,
    pub check_regex_path_name: bool,
    pub case_sensitive: bool,
    pub prevent_select_all_in_group: bool,
    pub path_pattern: String,
    pub name_pattern: String,
    pub regex_pattern: String,
}

/// The text of column `idx`, empty where the row has no such column.
pub open spec fn column(row: ResultRow, idx: usize) -> Seq<char> {
    if idx < row.val_str@.len() {
        row.val_str@[idx as int]@
    } else {
        Seq::empty()
    }
}

/// `s` as compared: itself, or its lower case when the case is ignored.
pub open spec fn folded(case_sensitive: bool, s: Seq<char>) -> Seq<char> {
    if case_sensitive {
        s
    } else {
        lowercased(s)
    }
}

/// Path and name joined by `/`, or whichever of them is not empty.
pub open spec fn full_name(path: Seq<char>, name: Seq<char>) -> Seq<char> {
    if path.len() == 0 {
        name
    } else if name.len() == 0 {
        path
    } else {
        path + seq!['/'] + name
    }
}

/// A wildcard applies to a column when asked for and not blank.
pub open spec fn wildcard_on(check: bool, pattern: Seq<char>) -> bool {
    check && trimmed(pattern).len() > 0
}

pub open spec fn wildcard_fits(case_sensitive: bool, pattern: Seq<char>, text: Seq<char>) -> bool {
    glob(
        vstd::utf8::encode_utf8(folded(case_sensitive, trimmed(pattern))),
        vstd::utf8::encode_utf8(folded(case_sensitive, text)),
    )
}

/// The options name something to look for.
pub open spec fn pattern_usable(c: CustomSelectConfig) -> bool {
    &&& c.check_path || c.check_name || c.check_regex_path_name
    &&& if c.check_regex_path_name {
        trimmed(c.regex_pattern@).len() > 0 && regex_compiles(trimmed(c.regex_pattern@), !c.case_sensitive)
    } else {
        wildcard_on(c.check_path, c.path_pattern@) || wildcard_on(c.check_name, c.name_pattern@)
    }
}

/// The file row `row` matches the options.
pub open spec fn row_matches(c: CustomSelectConfig, layout: ColumnLayout, row: ResultRow) -> bool {
    let path = column(row, layout.str_path_idx);
    let name = column(row, layout.str_name_idx);
    &&& !row.header_row
    &&& if c.check_regex_path_name {
        regex_finds(trimmed(c.regex_pattern@), !c.case_sensitive, full_name(path, name))
    } else {
        (wildcard_on(c.check_path, c.path_pattern@) && wildcard_fits(c.case_sensitive, c.path_pattern@, path)) || (
        wildcard_on(c.check_name, c.name_pattern@) && wildcard_fits(c.case_sensitive, c.name_pattern@, name))
    }
}

pub open spec fn is_candidate(c: CustomSelectConfig, layout: ColumnLayout, rows: Seq<ResultRow>, i: int) -> bool {
    !rows[i].checked && row_matches(c, layout, rows[i])
}

/// Row `i` is the last unchecked match of its group, and every unchecked row
/// of the group matches: checking it would check the whole group.
pub open spec fn kept_back(c: CustomSelectConfig, layout: ColumnLayout, rows: Seq<ResultRow>, i: int) -> bool {
    let s = prev_header(rows, i) + 1;
    let e = next_header(rows, i);
    &&& forall|j: int| i < j < e ==> !#[trigger] is_candidate(c, layout, rows, j)
    &&& forall|j: int| s <= j < e && !(#[trigger] rows[j]).checked ==> row_matches(c, layout, rows[j])
}

/// The check mark of row `i` after a selection by pattern.
pub open spec fn pattern_mark(c: CustomSelectConfig, layout: ColumnLayout, rows: Seq<ResultRow>, i: int) -> bool {
    let row = rows[i];
    if !pattern_usable(c) || row.header_row {
        row.checked
    } else if c.select_matches {
        if c.prevent_select_all_in_group && layout.is_header_mode {
            row.checked || (is_candidate(c, layout, rows, i) && !kept_back(c, layout, rows, i))
        } else {
            row.checked || row_matches(c, layout, row)
        }
    } else {
        row.checked && !row_matches(c, layout, row)
    }
}

/// Rows among the first `n` that `new` checks and `old` did not.
pub open spec fn count_checked_upto(old: Seq<ResultRow>, new: Seq<bool>, n: int) -> nat
    decreases n,
{
    if n <= 0 {
        0
    } else {
        count_checked_upto(old, new, n - 1) + if !old[n - 1].checked && new[n - 1] {
            1nat
        } else {
            0nat
        }
    }
}

/// Rows among the first `n` that `old` checked and `new` does not.
pub open spec fn count_unchecked_upto(old: Seq<ResultRow>, new: Seq<bool>, n: int) -> nat
    decreases n,
{
    if n <= 0 {
        0
    } else {
        count_unchecked_upto(old, new, n - 1) + if old[n - 1].checked && !new[n - 1] {
            1nat
        } else {
            0nat
        }
    }
}

/// Gives each row the check mark in `marks`; returns how many rows that
/// checked and unchecked.
fn apply_marks(rows: Vec<ResultRow>, marks: &Vec<bool>) -> (r: (u64, u64, Vec<ResultRow>))
    requires
        marks@.len() == rows@.len(),
    ensures
        r.2@.len() == rows@.len(),
        forall|i: int|
            0 <= i < rows@.len() ==> same_row_data(#[trigger] r.2@[i], rows@[i]) && r.2@[i].checked == marks@[i],
        r.0 == count_checked_upto(rows@, marks@, rows@.len() as int),
        r.1 == count_unchecked_upto(rows@, marks@, rows@.len() as int),
{
    let ghost orig = rows@;
    let n = rows.len();
    let mut pending = reversed(rows);
    let mut out: Vec<ResultRow> = Vec::new();
    let mut on: u64 = 0;
    let mut off: u64 = 0;
    let mut i: usize = 0;
    while i < n
        invariant
            n == orig.len(),
            marks@.len() == n,
            i <= n,
            pending@.len() + i == n,
            forall|k: int| 0 <= k < pending@.len() ==> #[trigger] pending@[k] == orig[n - 1 - k],
            out@.len() == i,
            forall|k: int| 0 <= k < i ==> same_row_data(#[trigger] out@[k], orig[k]) && out@[k].checked == marks@[k],
            on == count_checked_upto(orig, marks@, i as int),
            off == count_unchecked_upto(orig, marks@, i as int),
            on <= i,
            off <= i,
        decreases n - i,
    {
        let mut row = pending.pop().unwrap();
        assert(row == orig[i as int]);
        let mark = marks[i];
        if !row.checked && mark {
            on = on + 1;
        }
        if row.checked && !mark {
            off = off + 1;
        }
        row.checked = mark;
        out.push(row);
        i = i + 1;
    }
    (on, off, out)
}

fn column_text(row: &ResultRow, idx: usize) -> (r: String)
    ensures
        r@ == column(*row, idx),
{
    if idx < row.val_str.len() {
        row.val_str[idx].clone()
    } else {
        String::new()
    }
}

fn join_path_name(path: &String, name: &String) -> (r: String)
    ensures
        r@ == full_name(path@, name@),
{
    if path.as_str().is_empty() {
        name.clone()
    } else if name.as_str().is_empty() {
        path.clone()
    } else {
        proof {
            reveal_strlit("/");
        }
        path.clone().concat("/").concat(name.as_str())
    }
}

fn folded_text(case_sensitive: bool, s: &String) -> (r: String)
    ensures
        r@ == folded(case_sensitive, s@),
{
    if case_sensitive {
        s.clone()
    } else {
        lowercase(s.as_str())
    }
}

fn fits_wildcard(pattern: &String, text: &String) -> (r: bool)
    ensures
        r == glob(vstd::utf8::encode_utf8(pattern@), vstd::utf8::encode_utf8(text@)),
{
    wildcard_match(pattern.as_str().as_bytes(), text.as_str().as_bytes())
}

/// Whether each row matches the options, given the compiled expression
/// (when the expression is asked for) and the folded wildcards.
fn matched_rows(
    rows: &Vec<ResultRow>,
    layout: ColumnLayout,
    config: &CustomSelectConfig,
    regex: &Option<PathRegex>,
    wildcard_path: &Option<String>,
    wildcard_name: &Option<String>,
) -> (r: Vec<bool>)
    requires
        config.check_regex_path_name ==> (regex matches Some(x) && x.source() == trimmed(config.regex_pattern@)
            && x.ignores_case() == !config.case_sensitive),
        wildcard_path is Some <==> wildcard_on(config.check_path, config.path_pattern@),
        wildcard_path matches Some(w) ==> w@ == folded(config.case_sensitive, trimmed(config.path_pattern@)),
        wildcard_name is Some <==> wildcard_on(config.check_name, config.name_pattern@),
        wildcard_name matches Some(w) ==> w@ == folded(config.case_sensitive, trimmed(config.name_pattern@)),
    ensures
        r@.len() == rows@.len(),
        forall|i: int| 0 <= i < rows@.len() ==> #[trigger] r@[i] == row_matches(*config, layout, rows@[i]),
{
    let mut r: Vec<bool> = Vec::new();
    let mut i: usize = 0;
    while i < rows.len()
        invariant
            config.check_regex_path_name ==> (regex matches Some(x) && x.source() == trimmed(config.regex_pattern@)
                && x.ignores_case() == !config.case_sensitive),
            wildcard_path is Some <==> wildcard_on(config.check_path, config.path_pattern@),
            wildcard_path matches Some(w) ==> w@ == folded(config.case_sensitive, trimmed(config.path_pattern@)),
            wildcard_name is Some <==> wildcard_on(config.check_name, config.name_pattern@),
            wildcard_name matches Some(w) ==> w@ == folded(config.case_sensitive, trimmed(config.name_pattern@)),
            i <= rows@.len(),
            r@.len() == i,
            forall|k: int| 0 <= k < i ==> #[trigger] r@[k] == row_matches(*config, layout, rows@[k]),
        decreases rows.len() - i,
    {
        let row = &rows[i];
        let is_match = if row.header_row {
            false
        } else {
            let path = column_text(row, layout.str_path_idx);
            let name = column_text(row, layout.str_name_idx);
            if config.check_regex_path_name {
                match regex {
                    Some(re) => {
                        let full = join_path_name(&path, &name);
                        re.is_match(full.as_str())
                    },
                    None => false,
                }
            } else {
                let mut found = false;
                match wildcard_path {
                    Some(w) => {
                        let text = folded_text(config.case_sensitive, &path);
                        if fits_wildcard(w, &text) {
                            found = true;
                        }
                    },
                    None => {},
                }
                match wildcard_name {
                    Some(w) => {
                        let text = folded_text(config.case_sensitive, &name);
                        if fits_wildcard(w, &text) {
                            found = true;
                        }
                    },
                    None => {},
                }
                found
            }
        };
        r.push(is_match);
        i = i + 1;
    }
    r
}

/// The folded wildcard for one column, when it applies.
fn column_wildcard(check: bool, trimmed_pattern: &String, case_sensitive: bool) -> (r: Option<String>)
    ensures
        r is Some <==> check && trimmed_pattern@.len() > 0,
        r matches Some(w) ==> w@ == folded(case_sensitive, trimmed_pattern@),
{
    if check && !trimmed_pattern.as_str().is_empty() {
        Some(folded_text(case_sensitive, trimmed_pattern))
    } else {
        None
    }
}

proof fn lemma_run_bounds(rows: Seq<ResultRow>, s: int, e: int, i: int)
    requires
        0 <= s <= i < e <= rows.len(),
        s == 0 || rows[s - 1].header_row,
        e == rows.len() || rows[e].header_row,
        forall|j: int| s <= j < e ==> !(#[trigger] rows[j]).header_row,
    ensures
        prev_header(rows, i) + 1 == s,
        next_header(rows, i) == e,
{
    lemma_next_header_at(rows, i, e);
    if s == 0 {
        lemma_prev_header_none(rows, i);
    } else {
        lemma_prev_header_at(rows, s - 1, i);
    }
}

/// Checks (or unchecks, when not `select_matches`) the file rows whose path,
/// name, or joined path and name match the options. With
/// `prevent_select_all_in_group` in a list with headers, the last unchecked
/// match of a group is left unchecked where checking it would check the whole
/// group. Options that name nothing usable change nothing.
pub fn select_by_pattern(model: Vec<ResultRow>, layout: ColumnLayout, config: &CustomSelectConfig) -> (r: (
    u64,
    u64,
    Vec<ResultRow>,
))
    ensures
        r.2@.len() == model@.len(),
        forall|i: int|
            0 <= i < model@.len() ==> same_row_data(#[trigger] r.2@[i], model@[i]) && r.2@[i].checked
                == pattern_mark(*config, layout, model@, i),
        r.0 == count_checked_upto(model@, r.2@.map_values(|x: ResultRow| x.checked), model@.len() as int),
        r.1 == count_unchecked_upto(model@, r.2@.map_values(|x: ResultRow| x.checked), model@.len() as int),
{
    let ghost rows = model@;
    let n = model.len();
    let mut marks: Vec<bool> = Vec::new();
    let mut k: usize = 0;
    while k < n
        invariant
            n == rows.len(),
            rows == model@,
            k <= n,
            marks@.len() == k,
            forall|m: int| 0 <= m < k ==> #[trigger] marks@[m] == rows[m].checked,
        decreases n - k,
    {
        marks.push(model[k].checked);
        k = k + 1;
    }
    let path_pattern = trim_text(config.path_pattern.as_str());
    let name_pattern = trim_text(config.name_pattern.as_str());
    let regex_pattern = trim_text(config.regex_pattern.as_str());
    let usable_regex = if config.check_regex_path_name {
        if regex_pattern.as_str().is_empty() {
            None
        } else {
            PathRegex::compile(regex_pattern.as_str(), !config.case_sensitive)
        }
    } else {
        None
    };
    let wildcard_path = column_wildcard(config.check_path, &path_pattern, config.case_sensitive);
    let wildcard_name = column_wildcard(config.check_name, &name_pattern, config.case_sensitive);
    let usable = (config.check_path || config.check_name || config.check_regex_path_name) && if config.check_regex_path_name {
        usable_regex.is_some()
    } else {
        wildcard_path.is_some() || wildcard_name.is_some()
    };
    if usable {
        let matched = matched_rows(&model, layout, config, &usable_regex, &wildcard_path, &wildcard_name);
        if config.select_matches && config.prevent_select_all_in_group && layout.is_header_mode {
            let mut s: usize = 0;
            while s < n
                invariant
                    n == rows.len(),
                    rows == model@,
                    pattern_usable(*config),
                    config.select_matches && config.prevent_select_all_in_group && layout.is_header_mode,
                    matched@.len() == n,
                    forall|m: int| 0 <= m < n ==> #[trigger] matched@[m] == row_matches(*config, layout, rows[m]),
                    s <= n,
                    s == 0 || s == n || rows[s - 1].header_row || rows[s as int].header_row,
                    marks@.len() == n,
                    forall|m: int| 0 <= m < s ==> #[trigger] marks@[m] == pattern_mark(*config, layout, rows, m),
                    forall|m: int| s <= m < n ==> #[trigger] marks@[m] == rows[m].checked,
                decreases n - s,
            {
                if model[s].header_row {
                    s = s + 1;
                } else {
                    let mut e = s;
                    while e < n && !model[e].header_row
                        invariant
                            n == rows.len(),
                            rows == model@,
                            s <= e <= n,
                            forall|j: int| s <= j < e ==> !(#[trigger] rows[j]).header_row,
                        decreases n - e,
                    {
                        e = e + 1;
                    }
                    let mut possible: Vec<usize> = Vec::new();
                    let mut unchecked: usize = 0;
                    let mut j = s;
                    while j < e
                        invariant
                            n == rows.len(),
                            rows == model@,
                            s <= j <= e <= n,
                            matched@.len() == n,
                            forall|m: int| 0 <= m < n ==> #[trigger] matched@[m] == row_matches(*config, layout, rows[m]),
                            forall|a: int, b: int| 0 <= a < b < possible@.len() ==> possible@[a] < possible@[b],
                            forall|a: int| 0 <= a < possible@.len() ==> s <= #[trigger] possible@[a] < j,
                            forall|m: int| s <= m < j ==> (is_candidate(*config, layout, rows, m) <==> #[trigger] possible@.contains(m as usize)),
                            possible@.len() <= unchecked <= j - s,
                            possible@.len() == unchecked <==> forall|m: int| s <= m < j && !(#[trigger] rows[m]).checked ==> row_matches(*config, layout, rows[m]),
                        decreases e - j,
                    {
                        let ghost prev = possible@;
                        if !model[j].checked {
                            unchecked = unchecked + 1;
                            if matched[j] {
                                possible.push(j);
                            }
                        }
                        proof {
                            assert forall|m: int| s <= m < j + 1 implies (is_candidate(*config, layout, rows, m) <==> #[trigger] possible@.contains(m as usize)) by {
                                if m < j {
                                    if prev.contains(m as usize) {
                                        let q = choose|q: int| 0 <= q < prev.len() && prev[q] == m as usize;
                                        assert(possible@[q] == m as usize);
                                    }
                                    if possible@.contains(m as usize) {
                                        let q = choose|q: int| 0 <= q < possible@.len() && possible@[q] == m as usize;
                                        if q < prev.len() {
                                            assert(prev[q] == m as usize);
                                        }
                                    }
                                } else {
                                    if possible@.len() > prev.len() {
                                        assert(possible@[possible@.len() - 1] == j);
                                    }
                                    if possible@.contains(m as usize) {
                                        let q = choose|q: int| 0 <= q < possible@.len() && possible@[q] == m as usize;
                                        if q < prev.len() {
                                            assert(prev[q] < j);
                                        }
                                    }
                                }
                            }
                        }
                        j = j + 1;
                    }
                    let ghost all_match = possible@.len() == unchecked;
                    let ghost before_pop = possible@;
                    if possible.len() > 0 && possible.len() == unchecked {
                        possible.pop();
                    }
                    let mut q: usize = 0;
                    while q < possible.len()
                        invariant
                            n == rows.len(),
                            marks@.len() == n,
                            s <= e <= n,
                            q <= possible@.len(),
                            forall|a: int| 0 <= a < possible@.len() ==> s <= #[trigger] possible@[a] < e,
                            forall|m: int| 0 <= m < s ==> #[trigger] marks@[m] == pattern_mark(*config, layout, rows, m),
                            forall|m: int| e <= m < n ==> #[trigger] marks@[m] == rows[m].checked,
                            forall|m: int| s <= m < e ==> #[trigger] marks@[m] == (rows[m].checked || exists|a: int| 0 <= a < q && possible@[a] == m as usize),
                        decreases possible.len() - q,
                    {
                        let target = possible[q];
                        marks.set(target, true);
                        q = q + 1;
                    }
                    proof {
                        assert forall|m: int| s <= m < e implies #[trigger] marks@[m] == pattern_mark(*config, layout, rows, m) by {
                            lemma_run_bounds(rows, s as int, e as int, m);
                            let in_final = possible@.contains(m as usize);
                            if in_final {
                                let a = choose|a: int| 0 <= a < possible@.len() && possible@[a] == m as usize;
                                assert(before_pop[a] == m as usize);
                                assert(before_pop.contains(m as usize));
                                assert(is_candidate(*config, layout, rows, m));
                                if kept_back(*config, layout, rows, m) {
                                    assert(all_match);
                                    let last = before_pop.len() - 1;
                                    assert(a < last);
                                    let b = before_pop[last] as int;
                                    assert(before_pop.contains(b as usize));
                                    assert(m < b);
                                    assert(!is_candidate(*config, layout, rows, b));
                                }
                            } else {
                                assert(!exists|a: int| 0 <= a < possible@.len() && possible@[a] == m as usize);
                                if is_candidate(*config, layout, rows, m) {
                                    assert(before_pop.contains(m as usize));
                                    let a = choose|a: int| 0 <= a < before_pop.len() && before_pop[a] == m as usize;
                                    assert(a == before_pop.len() - 1 && all_match) by {
                                        if a < possible@.len() {
                                            assert(possible@[a] == m as usize);
                                        }
                                    }
                                    assert forall|x: int| m < x < e implies !#[trigger] is_candidate(*config, layout, rows, x) by {
                                        if is_candidate(*config, layout, rows, x) {
                                            assert(before_pop.contains(x as usize));
                                            let bx = choose|bx: int| 0 <= bx < before_pop.len() && before_pop[bx] == x as usize;
                                            assert(bx <= a);
                                            if bx < a {
                                                assert(before_pop[bx] < before_pop[a]);
                                            }
                                        }
                                    }
                                    assert(kept_back(*config, layout, rows, m));
                                }
                            }
                        }
                    }
                    s = e;
                }
            }
        } else {
            let mut i: usize = 0;
            while i < n
                invariant
                    n == rows.len(),
                    rows == model@,
                    pattern_usable(*config),
                    !(config.select_matches && config.prevent_select_all_in_group && layout.is_header_mode),
                    matched@.len() == n,
                    forall|m: int| 0 <= m < n ==> #[trigger] matched@[m] == row_matches(*config, layout, rows[m]),
                    i <= n,
                    marks@.len() == n,
                    forall|m: int| 0 <= m < i ==> #[trigger] marks@[m] == pattern_mark(*config, layout, rows, m),
                    forall|m: int| i <= m < n ==> #[trigger] marks@[m] == rows[m].checked,
                decreases n - i,
            {
                let current = marks[i];
                let mark = if config.select_matches {
                    current || matched[i]
                } else {
                    current && !matched[i]
                };
                marks.set(i, mark);
                i = i + 1;
            }
        }
    }
    let r = apply_marks(model, &marks);
    proof {
        assert(r.2@.map_values(|x: ResultRow| x.checked) =~= marks@);
    }
    r
}


/// Tabs of the application, each with its own result list.
#[derive(Clone, Copy, Debug, PartialEq, Eq, Structural)]
pub enum ActiveTab {
    DuplicateFiles,
    EmptyFolders,
    BigFiles,
    EmptyFiles,
    TemporaryFiles,
    SimilarImages,
    SimilarVideos,
    SimilarMusic,
    InvalidSymlinks,
    BrokenFiles,
    BadExtensions,
    BadNames,
    ExifRemover,
    VideoOptimizer,
    Settings,
    About,
}

/// Ways of changing the check marks of a result list at once.
#[derive(Clone, Copy, Debug, PartialEq, Eq, Structural)]
pub enum SelectMode {
    SelectAll,
    UnselectAll,
    InvertSelection,
    SelectTheBiggestSize,
    SelectTheSmallestSize,
    SelectTheBiggestResolution,
    SelectTheSmallestResolution,
    SelectNewest,
    SelectOldest,
    SelectShortestPath,
    SelectLongestPath,
}

/// The modes offered on `tab` beyond the three that every tab has.
pub open spec fn extra_modes(tab: ActiveTab) -> Seq<SelectMode> {
    match tab {
        ActiveTab::DuplicateFiles | ActiveTab::SimilarVideos | ActiveTab::SimilarMusic => seq![
            SelectMode::SelectOldest,
            SelectMode::SelectNewest,
            SelectMode::SelectTheSmallestSize,
            SelectMode::SelectTheBiggestSize,
            SelectMode::SelectShortestPath,
            SelectMode::SelectLongestPath,
        ],
        ActiveTab::SimilarImages => seq![
            SelectMode::SelectOldest,
            SelectMode::SelectNewest,
            SelectMode::SelectTheSmallestSize,
            SelectMode::SelectTheBiggestSize,
            SelectMode::SelectTheSmallestResolution,
            SelectMode::SelectTheBiggestResolution,
            SelectMode::SelectShortestPath,
            SelectMode::SelectLongestPath,
        ],
        _ => Seq::empty(),
    }
}

/// The select buttons of `tab`, in the order in which they are listed.
pub open spec fn select_buttons_of(tab: ActiveTab) -> Seq<SelectMode> {
    (seq![SelectMode::SelectAll, SelectMode::UnselectAll, SelectMode::InvertSelection] + extra_modes(tab)).reverse()
}

/// The select modes that `tab` offers, listed last to first: the ones
/// specific to the tab, then invert, unselect all and select all.
pub fn select_buttons(tab: ActiveTab) -> (r: Vec<SelectMode>)
    ensures
        r@ == select_buttons_of(tab),
{
    let mut modes: Vec<SelectMode> = vec![SelectMode::SelectAll, SelectMode::UnselectAll, SelectMode::InvertSelection];
    let extra: Vec<SelectMode> = match tab {
        ActiveTab::DuplicateFiles | ActiveTab::SimilarVideos | ActiveTab::SimilarMusic => vec![
            SelectMode::SelectOldest,
            SelectMode::SelectNewest,
            SelectMode::SelectTheSmallestSize,
            SelectMode::SelectTheBiggestSize,
            SelectMode::SelectShortestPath,
            SelectMode::SelectLongestPath,
        ],
        ActiveTab::SimilarImages => vec![
            SelectMode::SelectOldest,
            SelectMode::SelectNewest,
            SelectMode::SelectTheSmallestSize,
            SelectMode::SelectTheBiggestSize,
            SelectMode::SelectTheSmallestResolution,
            SelectMode::SelectTheBiggestResolution,
            SelectMode::SelectShortestPath,
            SelectMode::SelectLongestPath,
        ],
        _ => Vec::new(),
    };
    assert(extra@ =~= extra_modes(tab));
    let ghost base = modes@;
    let mut i: usize = 0;
    while i < extra.len()
        invariant
            i <= extra@.len(),
            modes@ == base + extra@.take(i as int),
        decreases extra.len() - i,
    {
        modes.push(extra[i]);
        i = i + 1;
        assert(modes@ =~= base + extra@.take(i as int));
    }
    assert(extra@.take(extra@.len() as int) =~= extra@);
    reversed(modes)
}

/// The compared column and direction of a mode that picks one row per group.
pub open spec fn property_mode(mode: SelectMode) -> Option<(Property, bool)> {
    match mode {
        SelectMode::SelectTheBiggestSize => Some((Property::Size, true)),
        SelectMode::SelectTheSmallestSize => Some((Property::Size, false)),
        SelectMode::SelectTheBiggestResolution => Some((Property::Resolution, true)),
        SelectMode::SelectTheSmallestResolution => Some((Property::Resolution, false)),
        SelectMode::SelectNewest => Some((Property::Date, true)),
        SelectMode::SelectOldest => Some((Property::Date, false)),
        SelectMode::SelectShortestPath => Some((Property::PathLength, false)),
        SelectMode::SelectLongestPath => Some((Property::PathLength, true)),
        _ => None,
    }
}

pub open spec fn marking_of(mode: SelectMode) -> Marking {
    match mode {
        SelectMode::UnselectAll => Marking::DeselectAll,
        SelectMode::InvertSelection => Marking::Invert,
        _ => Marking::SelectAll,
    }
}

/// Applies `mode` to the list; returns how many rows it checked and unchecked.
pub fn select_items(model: Vec<ResultRow>, layout: ColumnLayout, mode: SelectMode) -> (r: (u64, u64, Vec<ResultRow>))
    requires
        property_mode(mode) matches Some((p, _)) ==> layout.is_header_mode && fields_present(model@, p, layout),
    ensures
        match property_mode(mode) {
            Some((p, increasing)) => selected_by_property(model@, r.2@, p, layout, increasing) && r.0
                == count_checked_files(r.2@) && r.1 == 0,
            None => remarked(model@, r.2@, marking_of(mode)) && r.0 == count_turned_on(model@, marking_of(mode))
                && r.1 == count_turned_off(model@, marking_of(mode)),
        },
{
    match mode {
        SelectMode::SelectAll => select_all(model),
        SelectMode::UnselectAll => deselect_all(model),
        SelectMode::InvertSelection => invert_selection(model),
        SelectMode::SelectTheBiggestSize => select_by_property(model, layout, Property::Size, true),
        SelectMode::SelectTheSmallestSize => select_by_property(model, layout, Property::Size, false),
        SelectMode::SelectTheBiggestResolution => select_by_property(model, layout, Property::Resolution, true),
        SelectMode::SelectTheSmallestResolution => select_by_property(model, layout, Property::Resolution, false),
        SelectMode::SelectNewest => select_by_property(model, layout, Property::Date, true),
        SelectMode::SelectOldest => select_by_property(model, layout, Property::Date, false),
        SelectMode::SelectShortestPath => select_by_property(model, layout, Property::PathLength, false),
        SelectMode::SelectLongestPath => select_by_property(model, layout, Property::PathLength, true),
    }
}

} // verus!
