use vstd::prelude::*;
use vstd::arithmetic::power2::pow2;
use crate::btree::{
    page_at, page_base, scan_spec, scan_children_spec, ti_cells, tl_cells, probe_spec,
    probe_children_spec, il_cells,
};
use crate::cells::{TableInteriorCell, TableLeafCellM, IndexLeafCellM};
use crate::engine::run_query_spec;
use crate::filter::record_matches_spec;
use crate::page::PageType;
use crate::pager::PagerM;
use crate::parser::SelectQueryM;
use crate::serial_type::{SerialType, serial_type_of};
use crate::serial_value::{be_val, int_sign_extend, lemma_be_val_bound};

verus! {

/// The serial-type code that denotes `t`.
pub open spec fn serial_type_code(t: SerialType) -> nat {
    match t {
        SerialType::Null => 0,
        SerialType::Int8 => 1,
        SerialType::Int16 => 2,
        SerialType::Int24 => 3,
        SerialType::Int32 => 4,
        SerialType::Int48 => 5,
        SerialType::Int64 => 6,
        SerialType::Float64 => 7,
        SerialType::Zero => 8,
        SerialType::One => 9,
        SerialType::Blob(n) => (12 + 2 * (n as nat)) as nat,
        SerialType::Text(n) => (13 + 2 * (n as nat)) as nat,
    }
}

/// Serial-type codes round-trip: every code that decodes to a serial type
/// is the code of that type, and every serial type decodes from its own
/// code.
pub proof fn lemma_serial_type_round_trip(code: nat, t: SerialType)
    ensures
        serial_type_of(code) matches Some(t2) ==> serial_type_code(t2) == code,
        serial_type_of(serial_type_code(t)) == Some(t),
{
    match t {
        SerialType::Blob(n) => {
            assert((12 + 2 * (n as nat) - 12) as nat / 2 == n as nat);
        },
        SerialType::Text(n) => {
            assert((13 + 2 * (n as nat) - 13) as nat / 2 == n as nat);
        },
        _ => {},
    }
}

/// The big-endian bytes of the value `u`, `n` bytes long.
pub open spec fn be_encode(u: nat, n: nat) -> Seq<u8>
    decreases n,
{
    if n == 0 {
        Seq::empty()
    } else {
        be_encode(u / 256, (n - 1) as nat).push((u % 256) as u8)
    }
}

/// The big-endian two's-complement bytes of the signed value `v`, `n`
/// bytes long.
pub open spec fn int_encode(v: int, n: nat) -> Seq<u8> {
    be_encode((v % (pow2((8 * n) as nat) as int)) as nat, n)
}

/// Re-encoding the unsigned big-endian value of a byte string yields the
/// same bytes.
pub proof fn lemma_be_round_trip(s: Seq<u8>)
    ensures
        be_encode(be_val(s), s.len()) == s,
    decreases s.len(),
{
    if s.len() > 0 {
        lemma_be_round_trip(s.drop_last());
        let u = be_val(s);
        let a = be_val(s.drop_last());
        let b = s.last() as nat;
        assert(u == a * 256 + b);
        assert(u % 256 == b && u / 256 == a) by (nonlinear_arith)
            requires
                u == a * 256 + b,
                0 <= b < 256,
                a >= 0,
        ;
        assert(be_encode(u, s.len()) =~= s);
    }
}

/// Re-encoding the sign-extended integer read from a byte string yields
/// the same bytes: the decoder and the two's-complement encoder are
/// mutually inverse on every body of up to eight bytes.
pub proof fn lemma_int_round_trip(s: Seq<u8>)
    requires
        1 <= s.len() <= 8,
    ensures
        int_encode(int_sign_extend(s), s.len()) == s,
{
    let n = s.len();
    let p = pow2((8 * n) as nat) as int;
    lemma_be_val_bound(s);
    let v = int_sign_extend(s);
    assert(v % p == be_val(s)) by (nonlinear_arith)
        requires
            p > 0,
            0 <= be_val(s) < p,
            v == be_val(s) || v == be_val(s) - p,
    ;
    lemma_be_round_trip(s);
}

/// Whether the row ids of `cells` never decrease.
pub open spec fn row_ids_sorted(cells: Seq<TableLeafCellM>) -> bool {
    forall|i: int, j: int|
        #![trigger cells[i], cells[j]]
        0 <= i < j < cells.len() ==> cells[i].row_header.row_id <= cells[j].row_header.row_id
}

/// Whether every row id of `cells` lies in `[lo, hi]`.
pub open spec fn row_ids_in_range(cells: Seq<TableLeafCellM>, lo: u64, hi: u64) -> bool {
    forall|i: int| 0 <= i < cells.len() ==> lo <= (#[trigger] cells[i]).row_header.row_id <= hi
}

/// The lower key bound of the `i`-th child of an interior page: the
/// previous cell's key, or the subtree's own lower bound for the first
/// child.
pub open spec fn key_lb(cells: Seq<TableInteriorCell>, i: int, lo: u64) -> u64 {
    if i == 0 {
        lo
    } else {
        cells[i - 1].row_id
    }
}

/// The key invariant of a table subtree: at a leaf the row ids lie in
/// `[lo, hi]` in non-decreasing order; at an interior page the separator
/// keys ascend within `[lo, hi]`, each child subtree is bounded between
/// the neighbouring keys, and the rightmost subtree between the last key
/// and `hi`.
#[verifier::opaque]
pub open spec fn subtree_in_range(db: Seq<u8>, psz: nat, pn: nat, lo: u64, hi: u64, fuel: nat) -> bool
    decreases fuel,
{
    if fuel == 0 {
        false
    } else {
        match page_at(db, psz, pn) {
            None => false,
            Some(page) => {
                let base = page_base(psz, pn);
                if page.header.page_type == PageType::TableLeaf {
                    match tl_cells(db, base, page.cell_pointers) {
                        None => false,
                        Some(cells) => row_ids_in_range(cells, lo, hi) && row_ids_sorted(cells),
                    }
                } else if page.header.page_type == PageType::TableInterior {
                    match ti_cells(db, base, page.cell_pointers) {
                        None => false,
                        Some(cells) => {
                            &&& page.header.rightmost_pointer is Some
                            &&& forall|i: int|
                                0 <= i < cells.len() ==> key_lb(cells, i, lo) <= (
                                #[trigger] cells[i]).row_id <= hi
                            &&& forall|i: int|
                                0 <= i < cells.len() ==> subtree_in_range(
                                    db,
                                    psz,
                                    (#[trigger] cells[i]).left_child as nat,
                                    key_lb(cells, i, lo),
                                    cells[i].row_id,
                                    (fuel - 1) as nat,
                                )
                            &&& subtree_in_range(
                                db,
                                psz,
                                page.header.rightmost_pointer->Some_0 as nat,
                                if cells.len() == 0 {
                                    lo
                                } else {
                                    cells.last().row_id
                                },
                                hi,
                                (fuel - 1) as nat,
                            )
                        },
                    }
                } else {
                    false
                }
            },
        }
    }
}

/// Filtering keeps only members of a sequence, in their original order;
/// in particular it preserves the sortedness of the row ids.
proof fn lemma_cell_filter_props(cells: Seq<TableLeafCellM>, pred: spec_fn(TableLeafCellM) -> bool)
    ensures
        forall|i: int|
            0 <= i < cells.filter(pred).len() ==> exists|j: int|
                0 <= j < cells.len() && cells[j] == #[trigger] cells.filter(pred)[i],
        row_ids_sorted(cells) ==> row_ids_sorted(cells.filter(pred)),
    decreases cells.len(),
{
    reveal(Seq::filter);
    if cells.len() > 0 {
        lemma_cell_filter_props(cells.drop_last(), pred);
        let f = cells.filter(pred);
        let g = cells.drop_last().filter(pred);
        assert forall|i: int|
            0 <= i < f.len() implies exists|j: int|
            0 <= j < cells.len() && cells[j] == #[trigger] f[i] by {
            if pred(cells.last()) && i == f.len() - 1 {
                assert(f[i] == cells.last());
                assert(cells[cells.len() - 1] == cells.last());
            } else {
                assert(f[i] == g[i]);
                let j = choose|j: int|
                    0 <= j < cells.drop_last().len() && cells.drop_last()[j] == g[i];
                assert(cells[j] == g[i]);
            }
        }
        if row_ids_sorted(cells) {
            assert(row_ids_sorted(cells.drop_last())) by {
                assert(forall|i: int|
                    0 <= i < cells.len() - 1 ==> #[trigger] cells.drop_last()[i] == cells[i]);
            }
            assert forall|i: int, j: int|
                #![trigger f[i], f[j]]
                0 <= i < j < f.len() implies f[i].row_header.row_id
                <= f[j].row_header.row_id by {
                if pred(cells.last()) && j == f.len() - 1 {
                    assert(f[i] == g[i]);
                    let m = choose|m: int|
                        0 <= m < cells.drop_last().len() && cells.drop_last()[m] == g[i];
                    assert(cells[m] == f[i]);
                    assert(f[j] == cells.last());
                    assert(cells[m].row_header.row_id
                        <= cells[cells.len() - 1].row_header.row_id);
                } else {
                    assert(f[i] == g[i]);
                    assert(f[j] == g[j]);
                }
            }
        }
    }
}

/// Filtering an ordered, bounded run of cells keeps it ordered and
/// bounded.
proof fn lemma_filtered_run(
    cells: Seq<TableLeafCellM>,
    pred: spec_fn(TableLeafCellM) -> bool,
    lo: u64,
    hi: u64,
)
    requires
        row_ids_sorted(cells),
        row_ids_in_range(cells, lo, hi),
    ensures
        row_ids_sorted(cells.filter(pred)),
        row_ids_in_range(cells.filter(pred), lo, hi),
{
    lemma_cell_filter_props(cells, pred);
    assert forall|i: int|
        0 <= i < cells.filter(pred).len() implies lo <= (#[trigger] cells.filter(
        pred,
    )[i]).row_header.row_id <= hi by {
        let j = choose|j: int| 0 <= j < cells.len() && cells[j] == cells.filter(pred)[i];
    }
}

/// Joining two ordered runs whose ranges meet at `mid` gives an ordered
/// run over the joined range.
proof fn lemma_concat_ordered(
    a: Seq<TableLeafCellM>,
    b: Seq<TableLeafCellM>,
    lo: u64,
    mid: u64,
    hi: u64,
)
    requires
        row_ids_sorted(a),
        row_ids_sorted(b),
        row_ids_in_range(a, lo, mid),
        row_ids_in_range(b, mid, hi),
        a.len() > 0 ==> mid <= hi,
        b.len() > 0 ==> lo <= mid,
    ensures
        row_ids_sorted(a + b),
        row_ids_in_range(a + b, lo, hi),
{
    assert forall|i: int|
        0 <= i < (a + b).len() implies lo <= (#[trigger] (a + b)[i]).row_header.row_id <= hi by {
        if i < a.len() {
            assert((a + b)[i] == a[i]);
        } else {
            assert((a + b)[i] == b[i - a.len()]);
        }
    }
    assert forall|i: int, j: int|
        #![trigger (a + b)[i], (a + b)[j]]
        0 <= i < j < (a + b).len() implies (a + b)[i].row_header.row_id <= (a
        + b)[j].row_header.row_id by {
        if j < a.len() {
            assert((a + b)[i] == a[i] && (a + b)[j] == a[j]);
        } else if i >= a.len() {
            assert((a + b)[i] == b[i - a.len()] && (a + b)[j] == b[j - a.len()]);
        } else {
            assert((a + b)[i] == a[i] && (a + b)[j] == b[j - a.len()]);
            assert(a[i].row_header.row_id <= mid);
            assert(mid <= b[j - a.len()].row_header.row_id);
        }
    }
}

/// When every separator key is at least the one before it, the keys
/// ascend across the whole cell list.
proof fn lemma_keys_ascend(cells: Seq<TableInteriorCell>, lo: u64)
    requires
        forall|i: int|
            0 <= i < cells.len() ==> key_lb(cells, i, lo) <= (#[trigger] cells[i]).row_id,
    ensures
        forall|i: int, j: int|
            #![trigger cells[i], cells[j]]
            0 <= i <= j < cells.len() ==> cells[i].row_id <= cells[j].row_id,
        cells.len() > 0 ==> lo <= cells[0].row_id,
    decreases cells.len(),
{
    if cells.len() > 0 {
        let rest = cells.drop_first();
        assert forall|i: int|
            0 <= i < rest.len() implies key_lb(rest, i, cells[0].row_id) <= (
        #[trigger] rest[i]).row_id by {
            assert(rest[i] == cells[i + 1]);
            if i > 0 {
                assert(rest[i - 1] == cells[i]);
            }
        }
        lemma_keys_ascend(rest, cells[0].row_id);
        assert forall|i: int, j: int|
            #![trigger cells[i], cells[j]]
            0 <= i <= j < cells.len() implies cells[i].row_id <= cells[j].row_id by {
            if i == 0 && j > 0 {
                assert(rest[0] == cells[1]);
                assert(rest[j - 1] == cells[j]);
                assert(rest[0].row_id <= rest[j - 1].row_id);
            } else if i > 0 {
                assert(rest[i - 1] == cells[i]);
                assert(rest[j - 1] == cells[j]);
            }
        }
    }
}

/// Scanning a subtree that satisfies the key invariant succeeds and
/// yields cells whose row ids lie in `[lo, hi]` in non-decreasing order,
/// whether or not an equality filter is applied at leaves.  Instantiated
/// at the left child of a table-interior cell, this says the traversal
/// into that child yields only cells with row ids at most the cell's key.
#[verifier::rlimit(100)]
#[verifier::spinoff_prover]
pub proof fn lemma_scan_ordered(
    db: Seq<u8>,
    psz: nat,
    pn: nat,
    lo: u64,
    hi: u64,
    filt: Option<(int, Seq<char>)>,
    fuel: nat,
)
    requires
        subtree_in_range(db, psz, pn, lo, hi, fuel),
    ensures
        scan_spec(db, psz, pn, filt, fuel) matches Some(cells) && row_ids_sorted(cells)
            && row_ids_in_range(cells, lo, hi),
    decreases fuel, 0nat,
{
    reveal(subtree_in_range);
    let page = page_at(db, psz, pn)->Some_0;
    let base = page_base(psz, pn);
    if page.header.page_type == PageType::TableLeaf {
        let cells = tl_cells(db, base, page.cell_pointers)->Some_0;
        match filt {
            None => {},
            Some((idx, lit)) => {
                lemma_filtered_run(
                    cells,
                    |c: TableLeafCellM| record_matches_spec(c.record, idx, lit),
                    lo,
                    hi,
                );
            },
        }
    } else {
        let cells = ti_cells(db, base, page.cell_pointers)->Some_0;
        let ghost last_key = if cells.len() == 0 {
            lo
        } else {
            cells.last().row_id
        };
        lemma_keys_ascend(cells, lo);
        lemma_scan_children_ordered(db, psz, cells, lo, filt, (fuel - 1) as nat);
        let rm = page.header.rightmost_pointer->Some_0;
        lemma_scan_ordered(db, psz, rm as nat, last_key, hi, filt, (fuel - 1) as nat);
        let acc = scan_children_spec(db, psz, cells, filt, (fuel - 1) as nat)->Some_0;
        let rest = scan_spec(db, psz, rm as nat, filt, (fuel - 1) as nat)->Some_0;
        if cells.len() > 0 {
            assert(cells.last() == cells[cells.len() - 1]);
            assert(last_key <= hi);
            assert(lo <= cells[0].row_id && cells[0].row_id <= cells[cells.len() - 1].row_id);
        }
        lemma_concat_ordered(acc, rest, lo, last_key, hi);
    }
}

/// Scanning the children of an interior page that satisfies the key
/// invariant yields cells within `[lo, last key]`, in non-decreasing
/// order.
#[verifier::rlimit(100)]
#[verifier::spinoff_prover]
proof fn lemma_scan_children_ordered(
    db: Seq<u8>,
    psz: nat,
    cells: Seq<TableInteriorCell>,
    lo: u64,
    filt: Option<(int, Seq<char>)>,
    fuel: nat,
)
    requires
        forall|i: int|
            0 <= i < cells.len() ==> key_lb(cells, i, lo) <= (#[trigger] cells[i]).row_id,
        forall|i: int|
            0 <= i < cells.len() ==> subtree_in_range(
                db,
                psz,
                (#[trigger] cells[i]).left_child as nat,
                key_lb(cells, i, lo),
                cells[i].row_id,
                fuel,
            ),
    ensures
        scan_children_spec(db, psz, cells, filt, fuel) matches Some(acc) && row_ids_sorted(acc)
            && row_ids_in_range(
            acc,
            lo,
            if cells.len() == 0 {
                lo
            } else {
                cells.last().row_id
            },
        ),
    decreases fuel, cells.len(), 1nat,
{
    if cells.len() > 0 {
        lemma_keys_ascend(cells, lo);
        reveal(subtree_in_range);
        lemma_scan_ordered(db, psz, cells[0].left_child as nat, lo, cells[0].row_id, filt, fuel);
        let ghost k0 = cells[0].row_id;
        assert forall|i: int|
            0 <= i < cells.drop_first().len() implies key_lb(cells.drop_first(), i, k0) <= (
        #[trigger] cells.drop_first()[i]).row_id && subtree_in_range(
            db,
            psz,
            cells.drop_first()[i].left_child as nat,
            key_lb(cells.drop_first(), i, k0),
            cells.drop_first()[i].row_id,
            fuel,
        ) by {
            assert(cells.drop_first()[i] == cells[i + 1]);
            if i > 0 {
                assert(cells.drop_first()[i - 1] == cells[i]);
            }
            assert(key_lb(cells.drop_first(), i, k0) == key_lb(cells, i + 1, lo));
        }
        lemma_scan_children_ordered(db, psz, cells.drop_first(), k0, filt, fuel);
        let a = scan_spec(db, psz, cells[0].left_child as nat, filt, fuel)->Some_0;
        let b = scan_children_spec(db, psz, cells.drop_first(), filt, fuel)->Some_0;
        let ghost hib = if cells.drop_first().len() == 0 {
            k0
        } else {
            cells.drop_first().last().row_id
        };
        if cells.drop_first().len() > 0 {
            assert(cells.drop_first().last() == cells.last());
            assert(cells.last() == cells[cells.len() - 1]);
            assert(cells.drop_first()[cells.len() - 2] == cells[cells.len() - 1]);
            assert(k0 <= hib);
        }
        lemma_concat_ordered(a, b, lo, k0, hib);
        assert(hib == (if cells.len() == 0 {
            lo
        } else {
            cells.last().row_id
        }));
    }
}

/// Two successful answers to the same query over the same file are the
/// same string: running a query twice changes nothing and returns the
/// same text.
pub proof fn lemma_run_query_idempotent(p: PagerM, q: SelectQueryM, r1: Seq<char>, r2: Seq<char>)
    requires
        run_query_spec(p, q) == Some(r1),
        run_query_spec(p, q) == Some(r2),
    ensures
        r1 == r2,
{
}

/// Every cell an index probe returns satisfies the probed equality: its
/// key record's filtered column equals the literal.
pub proof fn lemma_probe_matches(
    db: Seq<u8>,
    psz: nat,
    pn: nat,
    idx: int,
    lit: Seq<char>,
    fuel: nat,
)
    requires
        probe_spec(db, psz, pn, idx, lit, fuel) is Some,
    ensures
        forall|i: int|
            0 <= i < probe_spec(db, psz, pn, idx, lit, fuel)->Some_0.len()
                ==> record_matches_spec(
                (#[trigger] probe_spec(db, psz, pn, idx, lit, fuel)->Some_0[i]).record,
                idx,
                lit,
            ),
    decreases fuel, 0nat,
{
    let page = page_at(db, psz, pn)->Some_0;
    let base = page_base(psz, pn);
    if page.header.page_type == PageType::IndexInterior {
        let cells = crate::btree::ii_cells(db, base, page.cell_pointers)->Some_0;
        lemma_probe_children_matches(db, psz, cells, idx, lit, (fuel - 1) as nat);
        let acc = probe_children_spec(db, psz, cells, idx, lit, (fuel - 1) as nat)->Some_0;
        let whole = probe_spec(db, psz, pn, idx, lit, fuel)->Some_0;
        if whole != acc {
            let rm = page.header.rightmost_pointer->Some_0;
            lemma_probe_matches(db, psz, rm as nat, idx, lit, (fuel - 1) as nat);
            let rest = probe_spec(db, psz, rm as nat, idx, lit, (fuel - 1) as nat)->Some_0;
            assert forall|i: int|
                0 <= i < whole.len() implies record_matches_spec(
                (#[trigger] whole[i]).record,
                idx,
                lit,
            ) by {
                assert(whole == acc + rest);
                if i < acc.len() {
                    assert(whole[i] == acc[i]);
                } else {
                    assert(whole[i] == rest[i - acc.len()]);
                }
            }
        }
    } else {
        let cells = il_cells(db, base, page.cell_pointers)->Some_0;
        let pred = |c: IndexLeafCellM| record_matches_spec(c.record, idx, lit);
        assert forall|i: int|
            0 <= i < cells.filter(pred).len() implies record_matches_spec(
            (#[trigger] cells.filter(pred)[i]).record,
            idx,
            lit,
        ) by {
            cells.lemma_filter_pred(pred, i);
        }
    }
}

/// A cell `cell_find` returns carries the row id it was asked for.
proof fn lemma_cell_find_row(cells: Seq<TableLeafCellM>, r: u64)
    requires
        crate::btree::cell_find(cells, r) is Some,
    ensures
        crate::btree::cell_find(cells, r)->Some_0.row_header.row_id == r,
    decreases cells.len(),
{
    if cells.len() > 0 && cells[0].row_header.row_id != r {
        lemma_cell_find_row(cells.drop_first(), r);
    }
}

/// Every cell found on a leaf during a lookup carries one of the pending
/// row ids.
proof fn lemma_leaf_found_ids(cells: Seq<TableLeafCellM>, pending: Seq<u64>)
    ensures
        forall|i: int|
            0 <= i < crate::btree::leaf_found(cells, pending).len() ==> pending.contains(
                (#[trigger] crate::btree::leaf_found(cells, pending)[i]).row_header.row_id,
            ),
    decreases pending.len(),
{
    if pending.len() > 0 {
        lemma_leaf_found_ids(cells, pending.drop_first());
        let found = crate::btree::leaf_found(cells, pending);
        let rest = crate::btree::leaf_found(cells, pending.drop_first());
        assert forall|i: int|
            0 <= i < found.len() implies pending.contains(
            (#[trigger] found[i]).row_header.row_id,
        ) by {
            match crate::btree::cell_find(cells, pending[0]) {
                Some(c) => {
                    assert(found == seq![c] + rest);
                    if i == 0 {
                        lemma_cell_find_row(cells, pending[0]);
                        assert(found[0].row_header.row_id == pending[0]);
                    } else {
                        assert(found[i] == rest[i - 1]);
                        let j = choose|j: int|
                            0 <= j < pending.drop_first().len() && pending.drop_first()[j] == rest[i
                                - 1].row_header.row_id;
                        assert(pending[j + 1] == rest[i - 1].row_header.row_id);
                    }
                },
                None => {
                    assert(found == rest);
                    let j = choose|j: int|
                        0 <= j < pending.drop_first().len() && pending.drop_first()[j]
                            == found[i].row_header.row_id;
                    assert(pending[j + 1] == found[i].row_header.row_id);
                },
            }
        }
    }
}

/// A filtered sequence keeps only members of the original.
proof fn lemma_filter_members(s: Seq<u64>, pred: spec_fn(u64) -> bool)
    ensures
        forall|i: int| 0 <= i < s.filter(pred).len() ==> s.contains(#[trigger] s.filter(pred)[i]),
    decreases s.len(),
{
    reveal(Seq::filter);
    if s.len() > 0 {
        lemma_filter_members(s.drop_last(), pred);
        let f = s.filter(pred);
        let g = s.drop_last().filter(pred);
        assert forall|i: int| 0 <= i < f.len() implies s.contains(#[trigger] f[i]) by {
            if pred(s.last()) && i == f.len() - 1 {
                assert(f[i] == s.last());
                assert(s[s.len() - 1] == s.last());
            } else {
                assert(f[i] == g[i]);
                let j = choose|j: int| 0 <= j < s.drop_last().len() && s.drop_last()[j] == g[i];
                assert(s[j] == g[i]);
            }
        }
    }
}

/// Every cell one lookup pass returns carries one of the pending row
/// ids, and the ids still pending are among the original ones.
proof fn lemma_lookup_ids(db: Seq<u8>, psz: nat, pn: nat, pending: Seq<u64>, fuel: nat)
    requires
        crate::btree::lookup_spec(db, psz, pn, pending, fuel) is Some,
    ensures
        ({
            let (f, p1) = crate::btree::lookup_spec(db, psz, pn, pending, fuel)->Some_0;
            &&& forall|i: int|
                0 <= i < f.len() ==> pending.contains((#[trigger] f[i]).row_header.row_id)
            &&& forall|i: int| 0 <= i < p1.len() ==> pending.contains(#[trigger] p1[i])
        }),
    decreases fuel, 0nat,
{
    let page = page_at(db, psz, pn)->Some_0;
    let base = page_base(psz, pn);
    if pending.len() == 0 {
    } else if page.header.page_type == PageType::TableInterior {
        let cells = ti_cells(db, base, page.cell_pointers)->Some_0;
        let target = pending[0];
        lemma_lookup_children_ids(db, psz, cells, target, pending, (fuel - 1) as nat);
        let (f1, p1) = crate::btree::lookup_children_spec(
            db,
            psz,
            cells,
            target,
            pending,
            (fuel - 1) as nat,
        )->Some_0;
        let (f, pz) = crate::btree::lookup_spec(db, psz, pn, pending, fuel)->Some_0;
        if cells.last().row_id <= target {
            lemma_lookup_ids(db, psz, page.header.rightmost_pointer->Some_0 as nat, p1, (fuel
                - 1) as nat);
            let (f2, p2) = crate::btree::lookup_spec(
                db,
                psz,
                page.header.rightmost_pointer->Some_0 as nat,
                p1,
                (fuel - 1) as nat,
            )->Some_0;
            assert forall|i: int|
                0 <= i < f.len() implies pending.contains(
                (#[trigger] f[i]).row_header.row_id,
            ) by {
                assert(f == f1 + f2);
                if i < f1.len() {
                    assert(f[i] == f1[i]);
                } else {
                    assert(f[i] == f2[i - f1.len()]);
                    let x = f2[i - f1.len()].row_header.row_id;
                    let j = choose|j: int| 0 <= j < p1.len() && p1[j] == x;
                    assert(pending.contains(p1[j]));
                }
            }
            assert forall|i: int| 0 <= i < pz.len() implies pending.contains(
                #[trigger] pz[i],
            ) by {
                assert(pz == p2);
                let j = choose|j: int| 0 <= j < p1.len() && p1[j] == p2[i];
                assert(pending.contains(p1[j]));
            }
        }
    } else {
        let cells = tl_cells(db, base, page.cell_pointers)->Some_0;
        lemma_leaf_found_ids(cells, pending);
        lemma_filter_members(pending, |r: u64| crate::btree::cell_find(cells, r) is None);
    }
}

/// The pass over interior children keeps found cells and pending ids
/// within the original pending ids.
proof fn lemma_lookup_children_ids(
    db: Seq<u8>,
    psz: nat,
    cells: Seq<TableInteriorCell>,
    target: u64,
    pending: Seq<u64>,
    fuel: nat,
)
    requires
        crate::btree::lookup_children_spec(db, psz, cells, target, pending, fuel) is Some,
    ensures
        ({
            let (f, p1) = crate::btree::lookup_children_spec(
                db,
                psz,
                cells,
                target,
                pending,
                fuel,
            )->Some_0;
            &&& forall|i: int|
                0 <= i < f.len() ==> pending.contains((#[trigger] f[i]).row_header.row_id)
            &&& forall|i: int| 0 <= i < p1.len() ==> pending.contains(#[trigger] p1[i])
        }),
    decreases fuel, cells.len(), 1nat,
{
    if cells.len() > 0 {
        let (f1, p1) = if cells[0].row_id >= target {
            lemma_lookup_ids(db, psz, cells[0].left_child as nat, pending, fuel);
            crate::btree::lookup_spec(db, psz, cells[0].left_child as nat, pending, fuel)->Some_0
        } else {
            (Seq::<TableLeafCellM>::empty(), pending)
        };
        lemma_lookup_children_ids(db, psz, cells.drop_first(), target, p1, fuel);
        let (f2, p2) = crate::btree::lookup_children_spec(
            db,
            psz,
            cells.drop_first(),
            target,
            p1,
            fuel,
        )->Some_0;
        let (f, pz) = crate::btree::lookup_children_spec(
            db,
            psz,
            cells,
            target,
            pending,
            fuel,
        )->Some_0;
        assert forall|i: int|
            0 <= i < f.len() implies pending.contains((#[trigger] f[i]).row_header.row_id) by {
            assert(f == f1 + f2);
            if i < f1.len() {
                assert(f[i] == f1[i]);
            } else {
                assert(f[i] == f2[i - f1.len()]);
                let x = f2[i - f1.len()].row_header.row_id;
                let j = choose|j: int| 0 <= j < p1.len() && p1[j] == x;
                assert(pending.contains(p1[j]));
            }
        }
        assert forall|i: int| 0 <= i < pz.len() implies pending.contains(#[trigger] pz[i]) by {
            assert(pz == p2);
            let j = choose|j: int| 0 <= j < p1.len() && p1[j] == p2[i];
            assert(pending.contains(p1[j]));
        }
    }
}

/// Every cell the repeated row-id lookup returns carries one of the
/// requested row ids: with the probe guarantee above, an index probe
/// followed by the table lookup yields only rows whose ids the probe
/// produced.
pub proof fn lemma_lookup_rounds_ids(db: Seq<u8>, psz: nat, pn: nat, pending: Seq<u64>, fuel: nat)
    requires
        crate::btree::lookup_rounds_spec(db, psz, pn, pending, fuel) is Some,
    ensures
        forall|i: int|
            0 <= i < crate::btree::lookup_rounds_spec(db, psz, pn, pending, fuel)->Some_0.len()
                ==> pending.contains(
                (#[trigger] crate::btree::lookup_rounds_spec(
                    db,
                    psz,
                    pn,
                    pending,
                    fuel,
                )->Some_0[i]).row_header.row_id,
            ),
    decreases pending.len(),
{
    if pending.len() > 0 {
        lemma_lookup_ids(db, psz, pn, pending, fuel);
        let (f, p1) = crate::btree::lookup_spec(db, psz, pn, pending, fuel)->Some_0;
        let whole = crate::btree::lookup_rounds_spec(db, psz, pn, pending, fuel)->Some_0;
        if p1.len() < pending.len() {
            lemma_lookup_rounds_ids(db, psz, pn, p1, fuel);
            let f2 = crate::btree::lookup_rounds_spec(db, psz, pn, p1, fuel)->Some_0;
            assert forall|i: int|
                0 <= i < whole.len() implies pending.contains(
                (#[trigger] whole[i]).row_header.row_id,
            ) by {
                assert(whole == f + f2);
                if i < f.len() {
                    assert(whole[i] == f[i]);
                } else {
                    assert(whole[i] == f2[i - f.len()]);
                    let x = f2[i - f.len()].row_header.row_id;
                    let j = choose|j: int| 0 <= j < p1.len() && p1[j] == x;
                    assert(pending.contains(p1[j]));
                }
            }
        }
    }
}

/// An index probe followed by a table lookup stays within the probe's
/// answer: every probed key record equals the literal on the filtered
/// column, and every row the lookup returns carries a row id the probe
/// produced.
pub proof fn lemma_probe_then_lookup(
    db: Seq<u8>,
    psz: nat,
    ipn: nat,
    tpn: nat,
    idx: int,
    lit: Seq<char>,
    fuel: nat,
)
    requires
        probe_spec(db, psz, ipn, idx, lit, fuel) matches Some(icells) && crate::btree::rows_of(
            icells,
        ) matches Some(ids) && crate::btree::lookup_rounds_spec(db, psz, tpn, ids, fuel) is Some,
    ensures
        ({
            let icells = probe_spec(db, psz, ipn, idx, lit, fuel)->Some_0;
            let ids = crate::btree::rows_of(icells)->Some_0;
            let cells = crate::btree::lookup_rounds_spec(db, psz, tpn, ids, fuel)->Some_0;
            &&& forall|i: int|
                0 <= i < icells.len() ==> record_matches_spec(
                    (#[trigger] icells[i]).record,
                    idx,
                    lit,
                )
            &&& forall|i: int|
                0 <= i < cells.len() ==> ids.contains((#[trigger] cells[i]).row_header.row_id)
        }),
{
    let icells = probe_spec(db, psz, ipn, idx, lit, fuel)->Some_0;
    let ids = crate::btree::rows_of(icells)->Some_0;
    lemma_probe_matches(db, psz, ipn, idx, lit, fuel);
    lemma_lookup_rounds_ids(db, psz, tpn, ids, fuel);
}

/// Every cell a probe pass over interior children returns satisfies the
/// probed equality.
proof fn lemma_probe_children_matches(
    db: Seq<u8>,
    psz: nat,
    cells: Seq<crate::cells::IndexInteriorCellM>,
    idx: int,
    lit: Seq<char>,
    fuel: nat,
)
    requires
        probe_children_spec(db, psz, cells, idx, lit, fuel) is Some,
    ensures
        forall|i: int|
            0 <= i < probe_children_spec(db, psz, cells, idx, lit, fuel)->Some_0.len()
                ==> record_matches_spec(
                (#[trigger] probe_children_spec(db, psz, cells, idx, lit, fuel)->Some_0[i]).record,
                idx,
                lit,
            ),
    decreases fuel, cells.len(), 1nat,
{
    if cells.len() > 0 {
        let ge = crate::filter::val_ge_lit(cells[0].record.values[0], lit)->Some_0;
        let f1 = if ge {
            probe_spec(db, psz, cells[0].left_child as nat, idx, lit, fuel)->Some_0
        } else {
            Seq::<IndexLeafCellM>::empty()
        };
        if ge {
            lemma_probe_matches(db, psz, cells[0].left_child as nat, idx, lit, fuel);
        }
        lemma_probe_children_matches(db, psz, cells.drop_first(), idx, lit, fuel);
        let f2 = probe_children_spec(db, psz, cells.drop_first(), idx, lit, fuel)->Some_0;
        assert forall|i: int|
            0 <= i < (f1 + f2).len() implies record_matches_spec(
            (#[trigger] (f1 + f2)[i]).record,
            idx,
            lit,
        ) by {
            if i < f1.len() {
                assert((f1 + f2)[i] == f1[i]);
            } else {
                assert((f1 + f2)[i] == f2[i - f1.len()]);
            }
        }
    }
}

} // verus!
