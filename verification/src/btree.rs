use vstd::prelude::*;
use crate::cells::{
    IndexInteriorCell, IndexInteriorCellM, IndexLeafCell, IndexLeafCellM, TableInteriorCell,
    TableLeafCell, TableLeafCellM, index_interior_cell_decode, index_leaf_cell_decode,
    index_row_id, table_interior_cell_decode, table_leaf_cell_decode,
};
use crate::error::Error;
use crate::filter::{dup_record, record_matches, record_matches_spec, val_ge_lit, greater_than};
use crate::page::{Page, PageM, PageType, page_decode, page_header_len};

verus! {

impl DeepView for TableLeafCell {
    type V = TableLeafCellM;

    open spec fn deep_view(&self) -> TableLeafCellM {
        self.view()
    }
}

impl DeepView for IndexLeafCell {
    type V = IndexLeafCellM;

    open spec fn deep_view(&self) -> IndexLeafCellM {
        self.view()
    }
}

/// The page numbered `pn` of a database whose pages are `psz` bytes:
/// pages are 1-indexed, page `pn` starting at byte `(pn - 1) * psz`, and
/// its header and cell-pointer array must lie within the page's own
/// `psz` bytes.
pub open spec fn page_at(db: Seq<u8>, psz: nat, pn: nat) -> Option<PageM> {
    if pn == 0 {
        None
    } else {
        match page_decode(db, (pn - 1) * psz) {
            None => None,
            Some(p) => if page_header_len(p.header.page_type) + 2 * (p.header.cell_count as int)
                <= psz {
                Some(p)
            } else {
                None
            },
        }
    }
}

/// The byte offset of page `pn`.
pub open spec fn page_base(psz: nat, pn: nat) -> int {
    (pn - 1) * psz
}

/// Decode the page numbered `pn`, returning it and its byte offset.  A
/// page whose header or cell-pointer array runs past the page's own
/// `psz` bytes is malformed.
pub fn page_at_exec(bytes: &[u8], psz: u16, pn: u32) -> (r: Result<(Page, usize), Error>)
    ensures
        match r {
            Ok((p, base)) => {
                &&& page_at(bytes@, psz as nat, pn as nat) == Some(p@)
                &&& base == page_base(psz as nat, pn as nat)
                &&& base <= bytes@.len()
            },
            Err(e) => page_at(bytes@, psz as nat, pn as nat) is None && e == Error::Decode,
        },
{
    if pn == 0 {
        return Err(Error::Decode);
    }
    proof {
        vstd::arithmetic::mul::lemma_mul_upper_bound(
            (pn - 1) as int,
            0xffff_ffff,
            psz as int,
            0xffff,
        );
    }
    let off64 = ((pn - 1) as u64) * (psz as u64);
    if off64 > bytes.len() as u64 {
        proof {
            assert(page_decode(bytes@, (pn - 1) * (psz as nat)) is None);
        }
        return Err(Error::Decode);
    }
    let pos = off64 as usize;
    match Page::decode(bytes, pos) {
        Ok(p) => {
            let hlen: usize = match p.header.page_type {
                PageType::TableInterior | PageType::IndexInterior => 12,
                PageType::TableLeaf | PageType::IndexLeaf => 8,
            };
            if hlen + 2 * (p.header.cell_count as usize) > psz as usize {
                return Err(Error::Decode);
            }
            Ok((p, pos))
        },
        Err(e) => Err(e),
    }
}

/// The table-leaf cells at pointers `ptrs`, each offset from `base`.
pub open spec fn tl_cell_ok(db: Seq<u8>, base: int, p: u16) -> bool {
    table_leaf_cell_decode(db, base + p) is Some
}

/// The table-leaf cell at pointer `p`.
pub open spec fn tl_cell_at(db: Seq<u8>, base: int, p: u16) -> TableLeafCellM {
    table_leaf_cell_decode(db, base + p)->Some_0.0
}

/// All table-leaf cells of a page, or `None` when any cell is malformed.
pub open spec fn tl_cells(db: Seq<u8>, base: int, ptrs: Seq<u16>) -> Option<Seq<TableLeafCellM>> {
    if forall|j: int| 0 <= j < ptrs.len() ==> tl_cell_ok(db, base, #[trigger] ptrs[j]) {
        Some(Seq::new(ptrs.len(), |j: int| tl_cell_at(db, base, ptrs[j])))
    } else {
        None
    }
}

/// The table-interior cells of a page, or `None` when any is malformed.
pub open spec fn ti_cells(db: Seq<u8>, base: int, ptrs: Seq<u16>) -> Option<
    Seq<TableInteriorCell>,
> {
    if forall|j: int|
        0 <= j < ptrs.len() ==> table_interior_cell_decode(db, base + #[trigger] ptrs[j]) is Some {
        Some(
            Seq::new(
                ptrs.len(),
                |j: int| table_interior_cell_decode(db, base + ptrs[j])->Some_0.0,
            ),
        )
    } else {
        None
    }
}

/// The index-leaf cells of a page, or `None` when any is malformed.
pub open spec fn il_cells(db: Seq<u8>, base: int, ptrs: Seq<u16>) -> Option<Seq<IndexLeafCellM>> {
    if forall|j: int|
        0 <= j < ptrs.len() ==> index_leaf_cell_decode(db, base + #[trigger] ptrs[j]) is Some {
        Some(Seq::new(ptrs.len(), |j: int| index_leaf_cell_decode(db, base + ptrs[j])->Some_0.0))
    } else {
        None
    }
}

/// The index-interior cells of a page, or `None` when any is malformed.
pub open spec fn ii_cells(db: Seq<u8>, base: int, ptrs: Seq<u16>) -> Option<
    Seq<IndexInteriorCellM>,
> {
    if forall|j: int|
        0 <= j < ptrs.len() ==> index_interior_cell_decode(db, base + #[trigger] ptrs[j]) is Some {
        Some(
            Seq::new(
                ptrs.len(),
                |j: int| index_interior_cell_decode(db, base + ptrs[j])->Some_0.0,
            ),
        )
    } else {
        None
    }
}

/// Decode every table-leaf cell named by `ptrs` on the page at `base`.
pub fn decode_table_leaf_cells(bytes: &[u8], base: usize, ptrs: &Vec<u16>) -> (r: Result<
    Vec<TableLeafCell>,
    Error,
>)
    requires
        base <= bytes@.len(),
    ensures
        match r {
            Ok(v) => tl_cells(bytes@, base as int, ptrs@) == Some(v.deep_view()),
            Err(e) => tl_cells(bytes@, base as int, ptrs@) is None && e == Error::Decode,
        },
{
    let n = ptrs.len();
    let mut out: Vec<TableLeafCell> = Vec::new();
    let mut i: usize = 0;
    while i < n
        invariant
            i <= n,
            n == ptrs@.len(),
            base <= bytes@.len(),
            out@.len() == i,
            forall|j: int| 0 <= j < i ==> tl_cell_ok(bytes@, base as int, #[trigger] ptrs@[j]),
            forall|j: int| 0 <= j < i ==> out@[j]@ == tl_cell_at(bytes@, base as int, ptrs@[j]),
        decreases n - i,
    {
        let p = ptrs[i] as usize;
        if p > bytes.len() - base {
            proof {
                assert(!tl_cell_ok(bytes@, base as int, ptrs@[i as int]));
            }
            return Err(Error::Decode);
        }
        match crate::cells::TableLeafCell::decode(bytes, base + p) {
            Ok((c, _)) => {
                out.push(c);
            },
            Err(_) => {
                proof {
                    assert(!tl_cell_ok(bytes@, base as int, ptrs@[i as int]));
                }
                return Err(Error::Decode);
            },
        }
        i = i + 1;
    }
    proof {
        assert(out.deep_view() =~= tl_cells(bytes@, base as int, ptrs@)->Some_0);
    }
    Ok(out)
}

/// Decode every table-interior cell named by `ptrs` on the page at `base`.
pub fn decode_table_interior_cells(bytes: &[u8], base: usize, ptrs: &Vec<u16>) -> (r: Result<
    Vec<TableInteriorCell>,
    Error,
>)
    requires
        base <= bytes@.len(),
    ensures
        match r {
            Ok(v) => ti_cells(bytes@, base as int, ptrs@) == Some(v@),
            Err(e) => ti_cells(bytes@, base as int, ptrs@) is None && e == Error::Decode,
        },
{
    let n = ptrs.len();
    let mut out: Vec<TableInteriorCell> = Vec::new();
    let mut i: usize = 0;
    while i < n
        invariant
            i <= n,
            n == ptrs@.len(),
            base <= bytes@.len(),
            out@.len() == i,
            forall|j: int|
                0 <= j < i ==> table_interior_cell_decode(
                    bytes@,
                    base as int + #[trigger] ptrs@[j],
                ) is Some,
            forall|j: int|
                0 <= j < i ==> out@[j] == table_interior_cell_decode(
                    bytes@,
                    base as int + ptrs@[j],
                )->Some_0.0,
        decreases n - i,
    {
        let p = ptrs[i] as usize;
        if p > bytes.len() - base {
            return Err(Error::Decode);
        }
        match crate::cells::TableInteriorCell::decode(bytes, base + p) {
            Ok((c, _)) => {
                out.push(c);
            },
            Err(_) => {
                return Err(Error::Decode);
            },
        }
        i = i + 1;
    }
    proof {
        assert(out@ =~= ti_cells(bytes@, base as int, ptrs@)->Some_0);
    }
    Ok(out)
}

/// Decode every index-leaf cell named by `ptrs` on the page at `base`.
pub fn decode_index_leaf_cells(bytes: &[u8], base: usize, ptrs: &Vec<u16>) -> (r: Result<
    Vec<IndexLeafCell>,
    Error,
>)
    requires
        base <= bytes@.len(),
    ensures
        match r {
            Ok(v) => il_cells(bytes@, base as int, ptrs@) == Some(v.deep_view()),
            Err(e) => il_cells(bytes@, base as int, ptrs@) is None && e == Error::Decode,
        },
{
    let n = ptrs.len();
    let mut out: Vec<IndexLeafCell> = Vec::new();
    let mut i: usize = 0;
    while i < n
        invariant
            i <= n,
            n == ptrs@.len(),
            base <= bytes@.len(),
            out@.len() == i,
            forall|j: int|
                0 <= j < i ==> index_leaf_cell_decode(
                    bytes@,
                    base as int + #[trigger] ptrs@[j],
                ) is Some,
            forall|j: int|
                0 <= j < i ==> out@[j]@ == index_leaf_cell_decode(
                    bytes@,
                    base as int + ptrs@[j],
                )->Some_0.0,
        decreases n - i,
    {
        let p = ptrs[i] as usize;
        if p > bytes.len() - base {
            return Err(Error::Decode);
        }
        match crate::cells::IndexLeafCell::decode(bytes, base + p) {
            Ok((c, _)) => {
                out.push(c);
            },
            Err(_) => {
                return Err(Error::Decode);
            },
        }
        i = i + 1;
    }
    proof {
        assert(out.deep_view() =~= il_cells(bytes@, base as int, ptrs@)->Some_0);
    }
    Ok(out)
}

/// Decode every index-interior cell named by `ptrs` on the page at
/// `base`.
pub fn decode_index_interior_cells(bytes: &[u8], base: usize, ptrs: &Vec<u16>) -> (r: Result<
    Vec<IndexInteriorCell>,
    Error,
>)
    requires
        base <= bytes@.len(),
    ensures
        match r {
            Ok(v) => {
                &&& ii_cells(bytes@, base as int, ptrs@) is Some
                &&& v@.len() == ptrs@.len()
                &&& forall|j: int|
                    0 <= j < v@.len() ==> #[trigger] v@[j]@ == ii_cells(
                        bytes@,
                        base as int,
                        ptrs@,
                    )->Some_0[j]
            },
            Err(e) => ii_cells(bytes@, base as int, ptrs@) is None && e == Error::Decode,
        },
{
    let n = ptrs.len();
    let mut out: Vec<IndexInteriorCell> = Vec::new();
    let mut i: usize = 0;
    while i < n
        invariant
            i <= n,
            n == ptrs@.len(),
            base <= bytes@.len(),
            out@.len() == i,
            forall|j: int|
                0 <= j < i ==> index_interior_cell_decode(
                    bytes@,
                    base as int + #[trigger] ptrs@[j],
                ) is Some,
            forall|j: int|
                0 <= j < i ==> out@[j]@ == index_interior_cell_decode(
                    bytes@,
                    base as int + ptrs@[j],
                )->Some_0.0,
        decreases n - i,
    {
        let p = ptrs[i] as usize;
        if p > bytes.len() - base {
            return Err(Error::Decode);
        }
        match crate::cells::IndexInteriorCell::decode(bytes, base + p) {
            Ok((c, _)) => {
                out.push(c);
            },
            Err(_) => {
                return Err(Error::Decode);
            },
        }
        i = i + 1;
    }
    Ok(out)
}

/// The table-leaf cells collected by a full scan of the table tree rooted
/// at page `pn`, with an optional equality filter applied at leaves:
/// interior pages are descended child by child and then through the
/// rightmost pointer; an index page is a structural error, and the scan
/// fails when `fuel` levels do not reach every leaf.
pub open spec fn scan_spec(
    db: Seq<u8>,
    psz: nat,
    pn: nat,
    filt: Option<(int, Seq<char>)>,
    fuel: nat,
) -> Option<Seq<TableLeafCellM>>
    decreases fuel, 0nat, 0nat,
{
    if fuel == 0 {
        None
    } else {
        match page_at(db, psz, pn) {
            None => None,
            Some(page) => {
                let base = page_base(psz, pn);
                if page.header.page_type == PageType::TableInterior {
                    match ti_cells(db, base, page.cell_pointers) {
                        None => None,
                        Some(cells) => match scan_children_spec(
                            db,
                            psz,
                            cells,
                            filt,
                            (fuel - 1) as nat,
                        ) {
                            None => None,
                            Some(acc) => match page.header.rightmost_pointer {
                                None => None,
                                Some(rm) => match scan_spec(
                                    db,
                                    psz,
                                    rm as nat,
                                    filt,
                                    (fuel - 1) as nat,
                                ) {
                                    None => None,
                                    Some(rest) => Some(acc + rest),
                                },
                            },
                        },
                    }
                } else if page.header.page_type == PageType::TableLeaf {
                    match tl_cells(db, base, page.cell_pointers) {
                        None => None,
                        Some(cells) => match filt {
                            None => Some(cells),
                            Some((idx, lit)) => Some(
                                cells.filter(
                                    |c: TableLeafCellM| record_matches_spec(c.record, idx, lit),
                                ),
                            ),
                        },
                    }
                } else {
                    None
                }
            },
        }
    }
}

/// The cells collected from the left children of the given interior
/// cells, in order.
pub open spec fn scan_children_spec(
    db: Seq<u8>,
    psz: nat,
    cells: Seq<TableInteriorCell>,
    filt: Option<(int, Seq<char>)>,
    fuel: nat,
) -> Option<Seq<TableLeafCellM>>
    decreases fuel, cells.len(), 1nat,
{
    if cells.len() == 0 {
        Some(Seq::empty())
    } else {
        match scan_spec(db, psz, cells[0].left_child as nat, filt, fuel) {
            None => None,
            Some(a) => match scan_children_spec(db, psz, cells.drop_first(), filt, fuel) {
                None => None,
                Some(b) => Some(a + b),
            },
        }
    }
}

/// Run the full table scan from page `pn`.
pub fn scan_rec(
    bytes: &[u8],
    psz: u16,
    pn: u32,
    filter: Option<&(usize, String)>,
    fuel: u64,
) -> (r: Result<Vec<TableLeafCell>, Error>)
    ensures
        ({
            let filt_m: Option<(int, Seq<char>)> = match filter {
                None => None,
                Some(f) => Some((f.0 as int, f.1@)),
            };
            match r {
                Ok(v) => scan_spec(bytes@, psz as nat, pn as nat, filt_m, fuel as nat) == Some(
                    v.deep_view(),
                ),
                Err(e) => scan_spec(bytes@, psz as nat, pn as nat, filt_m, fuel as nat) is None
                    && e == Error::Decode,
            }
        }),
    decreases fuel,
{
    let ghost filt_m: Option<(int, Seq<char>)> = match filter {
        None => None,
        Some(f) => Some((f.0 as int, f.1@)),
    };
    if fuel == 0 {
        return Err(Error::Decode);
    }
    let (page, base) = match page_at_exec(bytes, psz, pn) {
        Ok(p) => p,
        Err(_) => {
            return Err(Error::Decode);
        },
    };
    match page.header.page_type {
        PageType::TableInterior => {
            let cells = match decode_table_interior_cells(bytes, base, &page.cell_pointers) {
                Ok(v) => v,
                Err(_) => {
                    return Err(Error::Decode);
                },
            };
            let ghost cells_m = cells@;
            let n = cells.len();
            let mut out: Vec<TableLeafCell> = Vec::new();
            let mut i: usize = 0;
            proof {
                assert(cells_m.skip(0) =~= cells_m);
                assert(out.deep_view() =~= Seq::<TableLeafCellM>::empty());
                if scan_children_spec(bytes@, psz as nat, cells_m, filt_m, (fuel - 1) as nat)
                    is Some {
                    assert(out.deep_view() + scan_children_spec(
                        bytes@,
                        psz as nat,
                        cells_m,
                        filt_m,
                        (fuel - 1) as nat,
                    )->Some_0 =~= scan_children_spec(
                        bytes@,
                        psz as nat,
                        cells_m,
                        filt_m,
                        (fuel - 1) as nat,
                    )->Some_0);
                }
            }
            while i < n
                invariant
                    i <= n,
                    n == cells_m.len(),
                    cells@ == cells_m,
                    page_at(bytes@, psz as nat, pn as nat) == Some(page@),
                    page@.header.page_type == PageType::TableInterior,
                    ti_cells(
                        bytes@,
                        page_base(psz as nat, pn as nat),
                        page@.cell_pointers,
                    ) == Some(cells_m),
                    scan_children_spec(bytes@, psz as nat, cells_m, filt_m, (fuel - 1) as nat) == (
                    match scan_children_spec(
                        bytes@,
                        psz as nat,
                        cells_m.skip(i as int),
                        filt_m,
                        (fuel - 1) as nat,
                    ) {
                        None => None::<Seq<TableLeafCellM>>,
                        Some(rest) => Some(out.deep_view() + rest),
                    }),
                    fuel >= 1,
                    filt_m == (match filter {
                        None => None::<(int, Seq<char>)>,
                        Some(f) => Some((f.0 as int, f.1@)),
                    }),
                decreases n - i,
            {
                proof {
                    assert(cells_m.skip(i as int)[0] == cells_m[i as int]);
                    assert(cells_m.skip(i as int).drop_first() =~= cells_m.skip(i + 1));
                }
                let mut sub = match scan_rec(bytes, psz, cells[i].left_child, filter, fuel - 1) {
                    Ok(v) => v,
                    Err(_) => {
                        proof {
                            assert(scan_children_spec(
                                bytes@,
                                psz as nat,
                                cells_m.skip(i as int),
                                filt_m,
                                (fuel - 1) as nat,
                            ) is None);
                            assert(scan_children_spec(
                                bytes@,
                                psz as nat,
                                cells_m,
                                filt_m,
                                (fuel - 1) as nat,
                            ) is None);
                            assert(scan_spec(bytes@, psz as nat, pn as nat, filt_m, fuel as nat)
                                is None);
                        }
                        return Err(Error::Decode);
                    },
                };
                let ghost prev = out.deep_view();
                let ghost subv = sub.deep_view();
                out.append(&mut sub);
                proof {
                    assert(out.deep_view() =~~= prev + subv);
                    match scan_children_spec(
                        bytes@,
                        psz as nat,
                        cells_m.skip(i + 1),
                        filt_m,
                        (fuel - 1) as nat,
                    ) {
                        None => {},
                        Some(rest) => {
                            assert((prev + (subv + rest)) =~= ((prev + subv) + rest));
                        },
                    }
                }
                i = i + 1;
            }
            proof {
                assert(cells_m.skip(n as int) =~= Seq::<TableInteriorCell>::empty());
                assert(scan_children_spec(
                    bytes@,
                    psz as nat,
                    cells_m.skip(n as int),
                    filt_m,
                    (fuel - 1) as nat,
                ) == Some(Seq::<TableLeafCellM>::empty()));
            }
            let rm = match page.header.rightmost_pointer {
                Some(rm) => rm,
                None => {
                    proof {
                        assert(false);
                    }
                    return Err(Error::Decode);
                },
            };
            let ghost prev0 = out.deep_view();
            proof {
                assert(prev0 + Seq::<TableLeafCellM>::empty() =~= prev0);
                assert(scan_children_spec(bytes@, psz as nat, cells_m, filt_m, (fuel - 1) as nat)
                    == Some(prev0));
            }
            let mut rest = match scan_rec(bytes, psz, rm, filter, fuel - 1) {
                Ok(v) => v,
                Err(_) => {
                    proof {
                        assert(fuel as nat != 0);
                        assert(page_at(bytes@, psz as nat, pn as nat) == Some(page@));
                        assert(page@.header.page_type == PageType::TableInterior);
                        assert(ti_cells(bytes@, page_base(psz as nat, pn as nat),
                            page@.cell_pointers) == Some(cells_m));
                        assert(scan_children_spec(bytes@, psz as nat, cells_m, filt_m,
                            (fuel as nat - 1) as nat) == Some(prev0));
                        assert(page@.header.rightmost_pointer == Some(rm));
                        assert(scan_spec(bytes@, psz as nat, rm as nat, filt_m,
                            (fuel as nat - 1) as nat) is None);
                        assert(scan_spec(bytes@, psz as nat, pn as nat, filt_m, fuel as nat)
                            is None);
                    }
                    return Err(Error::Decode);
                },
            };
            let ghost restv = rest.deep_view();
            out.append(&mut rest);
            proof {
                assert(out.deep_view() =~~= prev0 + restv);
                assert(scan_spec(bytes@, psz as nat, pn as nat, filt_m, fuel as nat) == Some(
                    prev0 + restv,
                ));
            }
            Ok(out)
        },
        PageType::TableLeaf => {
            let cells = match decode_table_leaf_cells(bytes, base, &page.cell_pointers) {
                Ok(v) => v,
                Err(_) => {
                    return Err(Error::Decode);
                },
            };
            match filter {
                None => Ok(cells),
                Some(f) => {
                    let ghost cells_m = cells.deep_view();
                    let ghost pred = |c: TableLeafCellM|
                        record_matches_spec(c.record, f.0 as int, f.1@);
                    let n = cells.len();
                    let mut out: Vec<TableLeafCell> = Vec::new();
                    let mut i: usize = 0;
                    proof {
                        reveal(Seq::filter);
                        assert(cells_m.take(0) =~= Seq::<TableLeafCellM>::empty());
                        assert(out.deep_view() =~= cells_m.take(0).filter(pred));
                    }
                    while i < n
                        invariant
                            i <= n,
                            n == cells@.len(),
                            cells_m == cells.deep_view(),
                            cells_m.len() == n,
                            page_at(bytes@, psz as nat, pn as nat) == Some(page@),
                            page@.header.page_type == PageType::TableLeaf,
                            tl_cells(
                                bytes@,
                                page_base(psz as nat, pn as nat),
                                page@.cell_pointers,
                            ) == Some(cells_m),
                            fuel >= 1,
                            filt_m == (match filter {
                                None => None::<(int, Seq<char>)>,
                                Some(ff) => Some((ff.0 as int, ff.1@)),
                            }),
                            filter matches Some(fx) && fx == f,
                            forall|j: int| 0 <= j < n ==> cells_m[j] == #[trigger] cells@[j]@,
                            pred == (|c: TableLeafCellM|
                                record_matches_spec(c.record, f.0 as int, f.1@)),
                            out.deep_view() == cells_m.take(i as int).filter(pred),
                        decreases n - i,
                    {
                        let keep = record_matches(&cells[i].record, f.0, &f.1);
                        let ghost prev = out.deep_view();
                        proof {
                            reveal(Seq::filter);
                            assert(cells_m.take(i + 1).drop_last() =~= cells_m.take(i as int));
                            assert(cells_m.take(i + 1).last() == cells_m[i as int]);
                        }
                        if keep {
                            let copy = TableLeafCell {
                                row_header: cells[i].row_header,
                                record: dup_record(&cells[i].record),
                            };
                            out.push(copy);
                            proof {
                                assert(out.deep_view() =~~= prev.push(cells_m[i as int]));
                            }
                        }
                        i = i + 1;
                    }
                    proof {
                        assert(cells_m.take(n as int) =~= cells_m);
                    }
                    Ok(out)
                },
            }
        },
        _ => Err(Error::Decode),
    }
}

/// The first cell of `cells` whose row id is `r`.
pub open spec fn cell_find(cells: Seq<TableLeafCellM>, r: u64) -> Option<TableLeafCellM>
    decreases cells.len(),
{
    if cells.len() == 0 {
        None
    } else if cells[0].row_header.row_id == r {
        Some(cells[0])
    } else {
        cell_find(cells.drop_first(), r)
    }
}

/// `cell_find` is characterised by the first matching position.
pub proof fn lemma_cell_find_is(cells: Seq<TableLeafCellM>, r: u64, k: int)
    requires
        0 <= k <= cells.len(),
        forall|j: int| 0 <= j < k ==> (#[trigger] cells[j]).row_header.row_id != r,
        k < cells.len() ==> cells[k].row_header.row_id == r,
    ensures
        cell_find(cells, r) == (if k < cells.len() {
            Some(cells[k])
        } else {
            None::<TableLeafCellM>
        }),
    decreases cells.len(),
{
    if cells.len() > 0 && cells[0].row_header.row_id != r {
        assert(k >= 1);
        assert forall|j: int| 0 <= j < k - 1 implies (#[trigger] cells.drop_first()[j]).row_header.row_id
            != r by {
            assert(cells.drop_first()[j] == cells[j + 1]);
        }
        lemma_cell_find_is(cells.drop_first(), r, k - 1);
    }
}

/// The cells found on a leaf page for the pending row ids, in pending
/// order: for each pending id present on the page, its first cell.
pub open spec fn leaf_found(cells: Seq<TableLeafCellM>, pending: Seq<u64>) -> Seq<TableLeafCellM>
    decreases pending.len(),
{
    if pending.len() == 0 {
        Seq::empty()
    } else {
        match cell_find(cells, pending[0]) {
            Some(c) => seq![c] + leaf_found(cells, pending.drop_first()),
            None => leaf_found(cells, pending.drop_first()),
        }
    }
}

/// The pending row ids not present on the leaf page.
pub open spec fn leaf_remaining(cells: Seq<TableLeafCellM>, pending: Seq<u64>) -> Seq<u64> {
    pending.filter(|r: u64| cell_find(cells, r) is None)
}

/// The row-id lookup over the table tree rooted at `pn`: at an interior
/// page every child whose key is at least the first pending id is
/// visited, then the rightmost child when the last key does not exceed
/// that id; at a leaf the pending ids found there are collected and
/// removed.  The search returns the cells found and the ids still
/// pending.
pub open spec fn lookup_spec(
    db: Seq<u8>,
    psz: nat,
    pn: nat,
    pending: Seq<u64>,
    fuel: nat,
) -> Option<(Seq<TableLeafCellM>, Seq<u64>)>
    decreases fuel, 0nat, 0nat,
{
    if fuel == 0 {
        None
    } else {
        match page_at(db, psz, pn) {
            None => None,
            Some(page) => {
                if pending.len() == 0 {
                    Some((Seq::empty(), pending))
                } else {
                    let base = page_base(psz, pn);
                    let target = pending[0];
                    if page.header.page_type == PageType::TableInterior {
                        match ti_cells(db, base, page.cell_pointers) {
                            None => None,
                            Some(cells) => match lookup_children_spec(
                                db,
                                psz,
                                cells,
                                target,
                                pending,
                                (fuel - 1) as nat,
                            ) {
                                None => None,
                                Some((f1, p1)) => if cells.len() == 0 {
                                    None
                                } else {
                                    match page.header.rightmost_pointer {
                                        None => None,
                                        Some(rm) => if cells.last().row_id <= target {
                                            match lookup_spec(
                                                db,
                                                psz,
                                                rm as nat,
                                                p1,
                                                (fuel - 1) as nat,
                                            ) {
                                                None => None,
                                                Some((f2, p2)) => Some((f1 + f2, p2)),
                                            }
                                        } else {
                                            Some((f1, p1))
                                        },
                                    }
                                },
                            },
                        }
                    } else if page.header.page_type == PageType::TableLeaf {
                        match tl_cells(db, base, page.cell_pointers) {
                            None => None,
                            Some(cells) => Some(
                                (leaf_found(cells, pending), leaf_remaining(cells, pending)),
                            ),
                        }
                    } else {
                        None
                    }
                }
            },
        }
    }
}

/// One pass over the children of an interior page during a row-id
/// lookup, threading the pending ids left to right.
pub open spec fn lookup_children_spec(
    db: Seq<u8>,
    psz: nat,
    cells: Seq<TableInteriorCell>,
    target: u64,
    pending: Seq<u64>,
    fuel: nat,
) -> Option<(Seq<TableLeafCellM>, Seq<u64>)>
    decreases fuel, cells.len(), 1nat,
{
    if cells.len() == 0 {
        Some((Seq::empty(), pending))
    } else {
        let first = if cells[0].row_id >= target {
            lookup_spec(db, psz, cells[0].left_child as nat, pending, fuel)
        } else {
            Some((Seq::empty(), pending))
        };
        match first {
            None => None,
            Some((f1, p1)) => match lookup_children_spec(
                db,
                psz,
                cells.drop_first(),
                target,
                p1,
                fuel,
            ) {
                None => None,
                Some((f2, p2)) => Some((f1 + f2, p2)),
            },
        }
    }
}

/// Repeated lookup passes from the root until every pending id is found
/// or a pass makes no progress.
pub open spec fn lookup_rounds_spec(
    db: Seq<u8>,
    psz: nat,
    pn: nat,
    pending: Seq<u64>,
    fuel: nat,
) -> Option<Seq<TableLeafCellM>>
    decreases pending.len(),
{
    if pending.len() == 0 {
        Some(Seq::empty())
    } else {
        match lookup_spec(db, psz, pn, pending, fuel) {
            None => None,
            Some((f, p1)) => if p1.len() >= pending.len() {
                Some(f)
            } else {
                match lookup_rounds_spec(db, psz, pn, p1, fuel) {
                    None => None,
                    Some(f2) => Some(f + f2),
                }
            },
        }
    }
}

/// The position of the first cell with row id `r`, or the cell count
/// when no cell has it.
fn find_row(cells: &Vec<TableLeafCell>, r: u64) -> (hit: usize)
    ensures
        hit <= cells@.len(),
        cell_find(cells.deep_view(), r) == (if hit < cells@.len() {
            Some(cells.deep_view()[hit as int])
        } else {
            None::<TableLeafCellM>
        }),
{
    let ghost cells_m = cells.deep_view();
    let nc = cells.len();
    let mut k: usize = 0;
    while k < nc
        invariant
            k <= nc,
            nc == cells@.len(),
            cells_m == cells.deep_view(),
            forall|j: int| 0 <= j < k ==> (#[trigger] cells_m[j]).row_header.row_id != r,
        decreases nc - k,
    {
        if cells[k].row_id() == r {
            proof {
                assert(cells_m[k as int] == cells@[k as int]@);
                lemma_cell_find_is(cells_m, r, k as int);
            }
            return k;
        }
        proof {
            assert(cells_m[k as int] == cells@[k as int]@);
        }
        k = k + 1;
    }
    proof {
        lemma_cell_find_is(cells_m, r, nc as int);
    }
    nc
}

/// A copy of `c` with the same view.
pub fn dup_leaf_cell(c: &TableLeafCell) -> (r: TableLeafCell)
    ensures
        r@ == c@,
{
    TableLeafCell { row_header: c.row_header, record: dup_record(&c.record) }
}

/// One pass of the row-id lookup from page `pn`: collect the pending ids
/// found below it and remove them from `pending`.
#[verifier::loop_isolation(false)]
#[verifier::rlimit(50)]
pub fn lookup_rec(
    bytes: &[u8],
    psz: u16,
    pn: u32,
    pending: &mut Vec<u64>,
    fuel: u64,
) -> (r: Result<Vec<TableLeafCell>, Error>)
    ensures
        match r {
            Ok(f) => lookup_spec(bytes@, psz as nat, pn as nat, old(pending)@, fuel as nat)
                == Some((f.deep_view(), final(pending)@)),
            Err(e) => {
                &&& lookup_spec(bytes@, psz as nat, pn as nat, old(pending)@, fuel as nat) is None
                &&& e == Error::Decode
            },
        },
    decreases fuel,
{
    let ghost p0 = pending@;
    if fuel == 0 {
        return Err(Error::Decode);
    }
    let (page, base) = match page_at_exec(bytes, psz, pn) {
        Ok(p) => p,
        Err(_) => {
            return Err(Error::Decode);
        },
    };
    if pending.len() == 0 {
        return Ok(Vec::new());
    }
    let target = pending[0];
    match page.header.page_type {
        PageType::TableInterior => {
            let cells = match decode_table_interior_cells(bytes, base, &page.cell_pointers) {
                Ok(v) => v,
                Err(_) => {
                    return Err(Error::Decode);
                },
            };
            let ghost cells_m = cells@;
            let n = cells.len();
            let mut out: Vec<TableLeafCell> = Vec::new();
            let mut i: usize = 0;
            proof {
                assert(cells_m.skip(0) =~= cells_m);
                assert(out.deep_view() =~= Seq::<TableLeafCellM>::empty());
                match lookup_children_spec(
                    bytes@,
                    psz as nat,
                    cells_m,
                    target,
                    p0,
                    (fuel - 1) as nat,
                ) {
                    None => {},
                    Some((f, p)) => {
                        assert(out.deep_view() + f =~= f);
                    },
                }
            }
            while i < n
                invariant
                    i <= n,
                    n == cells_m.len(),
                    cells@ == cells_m,
                    page_at(bytes@, psz as nat, pn as nat) == Some(page@),
                    page@.header.page_type == PageType::TableInterior,
                    ti_cells(
                        bytes@,
                        page_base(psz as nat, pn as nat),
                        page@.cell_pointers,
                    ) == Some(cells_m),
                    fuel >= 1,
                    p0.len() > 0,
                    target == p0[0],
                    lookup_children_spec(bytes@, psz as nat, cells_m, target, p0, (fuel - 1) as nat)
                        == (match lookup_children_spec(
                        bytes@,
                        psz as nat,
                        cells_m.skip(i as int),
                        target,
                        pending@,
                        (fuel - 1) as nat,
                    ) {
                        None => None::<(Seq<TableLeafCellM>, Seq<u64>)>,
                        Some((f2, p2)) => Some((out.deep_view() + f2, p2)),
                    }),
                decreases n - i,
            {
                proof {
                    assert(cells_m.skip(i as int)[0] == cells_m[i as int]);
                    assert(cells_m.skip(i as int).drop_first() =~= cells_m.skip(i + 1));
                }
                if cells[i].row_id >= target {
                    let ghost pb = pending@;
                    let mut sub = match lookup_rec(
                        bytes,
                        psz,
                        cells[i].left_child,
                        pending,
                        fuel - 1,
                    ) {
                        Ok(v) => v,
                        Err(_) => {
                            proof {
                                assert(lookup_children_spec(
                                    bytes@,
                                    psz as nat,
                                    cells_m.skip(i as int),
                                    target,
                                    pb,
                                    (fuel - 1) as nat,
                                ) is None);
                                assert(lookup_spec(
                                    bytes@,
                                    psz as nat,
                                    pn as nat,
                                    p0,
                                    fuel as nat,
                                ) is None);
                            }
                            return Err(Error::Decode);
                        },
                    };
                    let ghost prev = out.deep_view();
                    let ghost subv = sub.deep_view();
                    out.append(&mut sub);
                    proof {
                        assert(out.deep_view() =~~= prev + subv);
                        match lookup_children_spec(
                            bytes@,
                            psz as nat,
                            cells_m.skip(i + 1),
                            target,
                            pending@,
                            (fuel - 1) as nat,
                        ) {
                            None => {},
                            Some((f2, p2)) => {
                                assert((prev + (subv + f2)) =~= ((prev + subv) + f2));
                            },
                        }
                    }
                } else {
                    proof {
                        match lookup_children_spec(
                            bytes@,
                            psz as nat,
                            cells_m.skip(i + 1),
                            target,
                            pending@,
                            (fuel - 1) as nat,
                        ) {
                            None => {},
                            Some((f2, p2)) => {
                                assert((out.deep_view() + (Seq::<TableLeafCellM>::empty() + f2))
                                    =~= (out.deep_view() + f2));
                            },
                        }
                    }
                }
                i = i + 1;
            }
            proof {
                assert(cells_m.skip(n as int) =~= Seq::<TableInteriorCell>::empty());
            }
            if cells.len() == 0 {
                proof {
                    assert(lookup_spec(bytes@, psz as nat, pn as nat, p0, fuel as nat) is None);
                }
                return Err(Error::Decode);
            }
            let rm = match page.header.rightmost_pointer {
                Some(rm) => rm,
                None => {
                    proof {
                        assert(false);
                    }
                    return Err(Error::Decode);
                },
            };
            let ghost prev0 = out.deep_view();
            let ghost p_mid = pending@;
            proof {
                assert(lookup_children_spec(bytes@, psz as nat, cells_m, target, p0, (fuel
                    - 1) as nat) == Some((prev0, p_mid)));
                assert(cells_m.last() == cells_m[n - 1]);
            }
            if cells[cells.len() - 1].row_id <= target {
                let mut rest = match lookup_rec(bytes, psz, rm, pending, fuel - 1) {
                    Ok(v) => v,
                    Err(_) => {
                        proof {
                            assert(lookup_spec(bytes@, psz as nat, pn as nat, p0, fuel as nat)
                                is None);
                        }
                        return Err(Error::Decode);
                    },
                };
                let ghost restv = rest.deep_view();
                out.append(&mut rest);
                proof {
                    assert(out.deep_view() =~~= prev0 + restv);
                }
                Ok(out)
            } else {
                Ok(out)
            }
        },
        PageType::TableLeaf => {
            let cells = match decode_table_leaf_cells(bytes, base, &page.cell_pointers) {
                Ok(v) => v,
                Err(_) => {
                    return Err(Error::Decode);
                },
            };
            let ghost cells_m = cells.deep_view();
            let np = pending.len();
            let nc = cells.len();
            let mut found: Vec<TableLeafCell> = Vec::new();
            let mut i: usize = 0;
            proof {
                assert(p0.skip(0) =~= p0);
                assert(found.deep_view() =~= Seq::<TableLeafCellM>::empty());
                assert(found.deep_view() + leaf_found(cells_m, p0) =~= leaf_found(cells_m, p0));
            }
            while i < np
                invariant
                    i <= np,
                    np == pending@.len(),
                    pending@ == p0,
                    nc == cells@.len(),
                    cells_m == cells.deep_view(),
                    cells_m.len() == nc,
                    forall|j: int| 0 <= j < nc ==> cells_m[j] == #[trigger] cells@[j]@,
                    leaf_found(cells_m, p0) == (match leaf_found(cells_m, p0.skip(i as int)) {
                        rest => found.deep_view() + rest,
                    }),
                decreases np - i,
            {
                let r = pending[i];
                proof {
                    assert(p0.skip(i as int)[0] == p0[i as int]);
                    assert(p0.skip(i as int).drop_first() =~= p0.skip(i + 1));
                }
                let hit = find_row(&cells, r);
                let ghost prev = found.deep_view();
                if hit < nc {
                    let copy = dup_leaf_cell(&cells[hit]);
                    found.push(copy);
                    proof {
                        assert(found.deep_view() =~~= prev.push(cells_m[hit as int]));
                        assert((prev + (seq![cells_m[hit as int]] + leaf_found(
                            cells_m,
                            p0.skip(i + 1),
                        ))) =~= (prev.push(cells_m[hit as int]) + leaf_found(
                            cells_m,
                            p0.skip(i + 1),
                        )));
                    }
                }
                i = i + 1;
            }
            proof {
                assert(p0.skip(np as int) =~= Seq::<u64>::empty());
                assert(leaf_found(cells_m, p0.skip(np as int)) =~= Seq::<TableLeafCellM>::empty());
                assert(found.deep_view() + Seq::<TableLeafCellM>::empty() =~= found.deep_view());
            }
            // remove the ids found on this page
            let ghost keep_pred = |r: u64| cell_find(cells_m, r) is None;
            let mut new_pending: Vec<u64> = Vec::new();
            let mut i2: usize = 0;
            proof {
                reveal(Seq::filter);
                assert(p0.take(0) =~= Seq::<u64>::empty());
                assert(new_pending@ =~= p0.take(0).filter(keep_pred));
            }
            while i2 < np
                invariant
                    i2 <= np,
                    np == pending@.len(),
                    pending@ == p0,
                    nc == cells@.len(),
                    cells_m == cells.deep_view(),
                    cells_m.len() == nc,
                    forall|j: int| 0 <= j < nc ==> cells_m[j] == #[trigger] cells@[j]@,
                    keep_pred == (|r: u64| cell_find(cells_m, r) is None),
                    new_pending@ == p0.take(i2 as int).filter(keep_pred),
                decreases np - i2,
            {
                let r = pending[i2];
                let hit2 = find_row(&cells, r);
                let present = hit2 < nc;
                proof {
                    reveal(Seq::filter);
                    assert(p0.take(i2 + 1).drop_last() =~= p0.take(i2 as int));
                    assert(p0.take(i2 + 1).last() == p0[i2 as int]);
                }
                if !present {
                    new_pending.push(r);
                }
                i2 = i2 + 1;
            }
            proof {
                assert(p0.take(np as int) =~= p0);
            }
            *pending = new_pending;
            Ok(found)
        },
        _ => Err(Error::Decode),
    }
}

/// Repeated lookup passes from the root page `pn` until every id in
/// `row_ids` is found or a pass makes no progress.
#[verifier::loop_isolation(false)]
pub fn lookup_rounds_exec(
    bytes: &[u8],
    psz: u16,
    pn: u32,
    row_ids: Vec<u64>,
    fuel: u64,
) -> (r: Result<Vec<TableLeafCell>, Error>)
    ensures
        match r {
            Ok(f) => lookup_rounds_spec(bytes@, psz as nat, pn as nat, row_ids@, fuel as nat)
                == Some(f.deep_view()),
            Err(e) => {
                &&& lookup_rounds_spec(
                    bytes@,
                    psz as nat,
                    pn as nat,
                    row_ids@,
                    fuel as nat,
                ) is None
                &&& e == Error::Decode
            },
        },
{
    let ghost p_init = row_ids@;
    let mut pending = row_ids;
    let mut records: Vec<TableLeafCell> = Vec::new();
    proof {
        assert(records.deep_view() =~= Seq::<TableLeafCellM>::empty());
        match lookup_rounds_spec(bytes@, psz as nat, pn as nat, p_init, fuel as nat) {
            None => {},
            Some(f) => {
                assert(records.deep_view() + f =~= f);
            },
        }
    }
    loop
        invariant
            lookup_rounds_spec(bytes@, psz as nat, pn as nat, p_init, fuel as nat) == (
            match lookup_rounds_spec(bytes@, psz as nat, pn as nat, pending@, fuel as nat) {
                None => None::<Seq<TableLeafCellM>>,
                Some(f) => Some(records.deep_view() + f),
            }),
        decreases pending@.len(),
    {
        if pending.len() == 0 {
            proof {
                assert(records.deep_view() + Seq::<TableLeafCellM>::empty() =~= records.deep_view());
            }
            return Ok(records);
        }
        let len_before = pending.len();
        let ghost pcur = pending@;
        let mut f = match lookup_rec(bytes, psz, pn, &mut pending, fuel) {
            Ok(v) => v,
            Err(_) => {
                return Err(Error::Decode);
            },
        };
        let ghost prev = records.deep_view();
        let ghost fv = f.deep_view();
        records.append(&mut f);
        proof {
            assert(records.deep_view() =~~= prev + fv);
        }
        if pending.len() >= len_before {
            proof {
                assert(lookup_rounds_spec(bytes@, psz as nat, pn as nat, pcur, fuel as nat)
                    == Some(fv));
            }
            return Ok(records);
        }
        proof {
            match lookup_rounds_spec(bytes@, psz as nat, pn as nat, pending@, fuel as nat) {
                None => {},
                Some(f2) => {
                    assert((prev + (fv + f2)) =~= ((prev + fv) + f2));
                },
            }
        }
    }
}

/// The index-leaf cells matched by an equality probe of the index tree
/// rooted at `pn`: every child whose separator key is at least the
/// literal is visited, and the rightmost child when the last separator is
/// below it; at leaves the cells whose column `idx` equals the literal
/// are collected.  A table page is a structural error, as is a key the
/// literal cannot be compared against.
pub open spec fn probe_spec(
    db: Seq<u8>,
    psz: nat,
    pn: nat,
    idx: int,
    lit: Seq<char>,
    fuel: nat,
) -> Option<Seq<IndexLeafCellM>>
    decreases fuel, 0nat, 0nat,
{
    if fuel == 0 {
        None
    } else {
        match page_at(db, psz, pn) {
            None => None,
            Some(page) => {
                let base = page_base(psz, pn);
                if page.header.page_type == PageType::IndexInterior {
                    match ii_cells(db, base, page.cell_pointers) {
                        None => None,
                        Some(cells) => match probe_children_spec(
                            db,
                            psz,
                            cells,
                            idx,
                            lit,
                            (fuel - 1) as nat,
                        ) {
                            None => None,
                            Some(acc) => if cells.len() == 0 {
                                None
                            } else if cells.last().record.values.len() == 0 {
                                None
                            } else {
                                match val_ge_lit(cells.last().record.values[0], lit) {
                                    None => None,
                                    Some(ge) => match page.header.rightmost_pointer {
                                        None => None,
                                        Some(rm) => if !ge {
                                            match probe_spec(
                                                db,
                                                psz,
                                                rm as nat,
                                                idx,
                                                lit,
                                                (fuel - 1) as nat,
                                            ) {
                                                None => None,
                                                Some(r2) => Some(acc + r2),
                                            }
                                        } else {
                                            Some(acc)
                                        },
                                    },
                                }
                            },
                        },
                    }
                } else if page.header.page_type == PageType::IndexLeaf {
                    match il_cells(db, base, page.cell_pointers) {
                        None => None,
                        Some(cells) => Some(
                            cells.filter(
                                |c: IndexLeafCellM| record_matches_spec(c.record, idx, lit),
                            ),
                        ),
                    }
                } else {
                    None
                }
            },
        }
    }
}

/// One pass over the children of an index-interior page during a probe.
pub open spec fn probe_children_spec(
    db: Seq<u8>,
    psz: nat,
    cells: Seq<IndexInteriorCellM>,
    idx: int,
    lit: Seq<char>,
    fuel: nat,
) -> Option<Seq<IndexLeafCellM>>
    decreases fuel, cells.len(), 1nat,
{
    if cells.len() == 0 {
        Some(Seq::empty())
    } else if cells[0].record.values.len() == 0 {
        None
    } else {
        match val_ge_lit(cells[0].record.values[0], lit) {
            None => None,
            Some(ge) => {
                let first = if ge {
                    probe_spec(db, psz, cells[0].left_child as nat, idx, lit, fuel)
                } else {
                    Some(Seq::empty())
                };
                match first {
                    None => None,
                    Some(f1) => match probe_children_spec(
                        db,
                        psz,
                        cells.drop_first(),
                        idx,
                        lit,
                        fuel,
                    ) {
                        None => None,
                        Some(f2) => Some(f1 + f2),
                    },
                }
            },
        }
    }
}

/// A copy of `c` with the same view.
pub fn dup_index_leaf_cell(c: &IndexLeafCell) -> (r: IndexLeafCell)
    ensures
        r@ == c@,
{
    IndexLeafCell { size: c.size, record: dup_record(&c.record) }
}

/// Run the equality probe of the index tree rooted at page `pn`.
#[verifier::loop_isolation(false)]
#[verifier::rlimit(50)]
pub fn probe_rec(
    bytes: &[u8],
    psz: u16,
    pn: u32,
    idx: usize,
    lit: &String,
    fuel: u64,
) -> (r: Result<Vec<IndexLeafCell>, Error>)
    ensures
        match r {
            Ok(v) => probe_spec(bytes@, psz as nat, pn as nat, idx as int, lit@, fuel as nat)
                == Some(v.deep_view()),
            Err(e) => {
                &&& probe_spec(
                    bytes@,
                    psz as nat,
                    pn as nat,
                    idx as int,
                    lit@,
                    fuel as nat,
                ) is None
                &&& e == Error::Decode
            },
        },
    decreases fuel,
{
    if fuel == 0 {
        return Err(Error::Decode);
    }
    let (page, base) = match page_at_exec(bytes, psz, pn) {
        Ok(p) => p,
        Err(_) => {
            return Err(Error::Decode);
        },
    };
    match page.header.page_type {
        PageType::IndexInterior => {
            let cells = match decode_index_interior_cells(bytes, base, &page.cell_pointers) {
                Ok(v) => v,
                Err(_) => {
                    return Err(Error::Decode);
                },
            };
            let ghost cells_m = ii_cells(
                bytes@,
                page_base(psz as nat, pn as nat),
                page@.cell_pointers,
            )->Some_0;
            let n = cells.len();
            let mut out: Vec<IndexLeafCell> = Vec::new();
            let mut i: usize = 0;
            proof {
                assert(cells_m.skip(0) =~= cells_m);
                assert(out.deep_view() =~= Seq::<IndexLeafCellM>::empty());
                match probe_children_spec(bytes@, psz as nat, cells_m, idx as int, lit@, (fuel
                    - 1) as nat) {
                    None => {},
                    Some(f) => {
                        assert(out.deep_view() + f =~= f);
                    },
                }
            }
            while i < n
                invariant
                    i <= n,
                    n == cells_m.len(),
                    probe_children_spec(bytes@, psz as nat, cells_m, idx as int, lit@, (fuel
                        - 1) as nat) == (match probe_children_spec(
                        bytes@,
                        psz as nat,
                        cells_m.skip(i as int),
                        idx as int,
                        lit@,
                        (fuel - 1) as nat,
                    ) {
                        None => None::<Seq<IndexLeafCellM>>,
                        Some(rest) => Some(out.deep_view() + rest),
                    }),
                decreases n - i,
            {
                proof {
                    assert(cells_m.skip(i as int)[0] == cells_m[i as int]);
                    assert(cells_m.skip(i as int).drop_first() =~= cells_m.skip(i + 1));
                    assert(cells@[i as int]@ == cells_m[i as int]);
                }
                if cells[i].record.values.len() == 0 {
                    proof {
                        assert(probe_children_spec(
                            bytes@,
                            psz as nat,
                            cells_m.skip(i as int),
                            idx as int,
                            lit@,
                            (fuel - 1) as nat,
                        ) is None);
                    }
                    return Err(Error::Decode);
                }
                proof {
                    assert(cells@[i as int].record@.values[0] == cells_m[i as int].record.values[0]);
                }
                let ge = match greater_than(&cells[i].record.values[0], lit) {
                    Ok(b) => b,
                    Err(_) => {
                        proof {
                            assert(probe_children_spec(
                                bytes@,
                                psz as nat,
                                cells_m.skip(i as int),
                                idx as int,
                                lit@,
                                (fuel - 1) as nat,
                            ) is None);
                        }
                        return Err(Error::Decode);
                    },
                };
                if ge {
                    let mut sub = match probe_rec(bytes, psz, cells[i].left_child, idx, lit, fuel
                        - 1) {
                        Ok(v) => v,
                        Err(_) => {
                            proof {
                                assert(probe_children_spec(
                                    bytes@,
                                    psz as nat,
                                    cells_m.skip(i as int),
                                    idx as int,
                                    lit@,
                                    (fuel - 1) as nat,
                                ) is None);
                            }
                            return Err(Error::Decode);
                        },
                    };
                    let ghost prev = out.deep_view();
                    let ghost subv = sub.deep_view();
                    out.append(&mut sub);
                    proof {
                        assert(out.deep_view() =~~= prev + subv);
                        match probe_children_spec(
                            bytes@,
                            psz as nat,
                            cells_m.skip(i + 1),
                            idx as int,
                            lit@,
                            (fuel - 1) as nat,
                        ) {
                            None => {},
                            Some(rest) => {
                                assert((prev + (subv + rest)) =~= ((prev + subv) + rest));
                            },
                        }
                    }
                } else {
                    proof {
                        match probe_children_spec(
                            bytes@,
                            psz as nat,
                            cells_m.skip(i + 1),
                            idx as int,
                            lit@,
                            (fuel - 1) as nat,
                        ) {
                            None => {},
                            Some(rest) => {
                                assert((out.deep_view() + (Seq::<IndexLeafCellM>::empty() + rest))
                                    =~= (out.deep_view() + rest));
                            },
                        }
                    }
                }
                i = i + 1;
            }
            proof {
                assert(cells_m.skip(n as int) =~= Seq::<IndexInteriorCellM>::empty());
            }
            if cells.len() == 0 {
                return Err(Error::Decode);
            }
            proof {
                assert(cells_m.last() == cells_m[n - 1]);
                assert(cells@[n - 1]@ == cells_m[n - 1]);
            }
            if cells[cells.len() - 1].record.values.len() == 0 {
                return Err(Error::Decode);
            }
            proof {
                assert(cells@[n - 1].record@.values[0] == cells_m[n - 1].record.values[0]);
            }
            let ge = match greater_than(&cells[cells.len() - 1].record.values[0], lit) {
                Ok(b) => b,
                Err(_) => {
                    return Err(Error::Decode);
                },
            };
            let rm = match page.header.rightmost_pointer {
                Some(rm) => rm,
                None => {
                    proof {
                        assert(false);
                    }
                    return Err(Error::Decode);
                },
            };
            if !ge {
                let ghost prev0 = out.deep_view();
                let mut rest = match probe_rec(bytes, psz, rm, idx, lit, fuel - 1) {
                    Ok(v) => v,
                    Err(_) => {
                        return Err(Error::Decode);
                    },
                };
                let ghost restv = rest.deep_view();
                out.append(&mut rest);
                proof {
                    assert(out.deep_view() =~~= prev0 + restv);
                }
                Ok(out)
            } else {
                Ok(out)
            }
        },
        PageType::IndexLeaf => {
            let cells = match decode_index_leaf_cells(bytes, base, &page.cell_pointers) {
                Ok(v) => v,
                Err(_) => {
                    return Err(Error::Decode);
                },
            };
            let ghost cells_m = cells.deep_view();
            let ghost pred = |c: IndexLeafCellM| record_matches_spec(c.record, idx as int, lit@);
            let n = cells.len();
            let mut out: Vec<IndexLeafCell> = Vec::new();
            let mut i: usize = 0;
            proof {
                reveal(Seq::filter);
                assert(cells_m.take(0) =~= Seq::<IndexLeafCellM>::empty());
                assert(out.deep_view() =~= cells_m.take(0).filter(pred));
            }
            while i < n
                invariant
                    i <= n,
                    n == cells@.len(),
                    out.deep_view() == cells_m.take(i as int).filter(pred),
                decreases n - i,
            {
                proof {
                    assert(cells_m[i as int] == cells@[i as int]@);
                }
                let keep = record_matches(&cells[i].record, idx, lit);
                let ghost prev = out.deep_view();
                proof {
                    reveal(Seq::filter);
                    assert(cells_m.take(i + 1).drop_last() =~= cells_m.take(i as int));
                    assert(cells_m.take(i + 1).last() == cells_m[i as int]);
                }
                if keep {
                    let copy = dup_index_leaf_cell(&cells[i]);
                    out.push(copy);
                    proof {
                        assert(out.deep_view() =~~= prev.push(cells_m[i as int]));
                    }
                }
                i = i + 1;
            }
            proof {
                assert(cells_m.take(n as int) =~= cells_m);
            }
            Ok(out)
        },
        _ => Err(Error::Decode),
    }
}

/// The table row ids named by the final column of each probe result, or
/// `None` when any final column is not an integer.
pub open spec fn rows_of(cells: Seq<IndexLeafCellM>) -> Option<Seq<u64>>
    decreases cells.len(),
{
    if cells.len() == 0 {
        Some(Seq::empty())
    } else {
        match index_row_id(cells[0].record) {
            None => None,
            Some(r) => match rows_of(cells.drop_first()) {
                None => None,
                Some(rest) => Some(seq![r] + rest),
            },
        }
    }
}

/// When every cell carries a row id, `rows_of` lists them in order.
proof fn lemma_rows_of_all(cells: Seq<IndexLeafCellM>)
    requires
        forall|j: int| 0 <= j < cells.len() ==> index_row_id((#[trigger] cells[j]).record) is Some,
    ensures
        rows_of(cells) == Some(
            Seq::new(cells.len(), |j: int| index_row_id(cells[j].record)->Some_0),
        ),
    decreases cells.len(),
{
    if cells.len() > 0 {
        assert forall|j: int|
            0 <= j < cells.drop_first().len() implies index_row_id(
            (#[trigger] cells.drop_first()[j]).record,
        ) is Some by {
            assert(cells.drop_first()[j] == cells[j + 1]);
        }
        lemma_rows_of_all(cells.drop_first());
        assert(seq![index_row_id(cells[0].record)->Some_0] + Seq::new(
            cells.drop_first().len(),
            |j: int| index_row_id(cells.drop_first()[j].record)->Some_0,
        ) =~= Seq::new(cells.len(), |j: int| index_row_id(cells[j].record)->Some_0));
    }
}

/// When some cell lacks a row id, `rows_of` is undefined.
proof fn lemma_rows_of_none(cells: Seq<IndexLeafCellM>, i: int)
    requires
        0 <= i < cells.len(),
        index_row_id(cells[i].record) is None,
    ensures
        rows_of(cells) is None,
    decreases cells.len(),
{
    if cells.len() > 0 && index_row_id(cells[0].record) is Some {
        assert(cells.drop_first()[i - 1] == cells[i]);
        lemma_rows_of_none(cells.drop_first(), i - 1);
    }
}

/// The row id carried by each probe result, in order.  Fails when some
/// final column is not an integer.
pub fn rows_of_exec(cells: &Vec<IndexLeafCell>) -> (r: Result<Vec<u64>, Error>)
    ensures
        match r {
            Ok(v) => rows_of(cells.deep_view()) == Some(v@),
            Err(e) => rows_of(cells.deep_view()) is None && e == Error::Decode,
        },
{
    let ghost cells_m = cells.deep_view();
    let n = cells.len();
    let mut out: Vec<u64> = Vec::new();
    let mut i: usize = 0;
    while i < n
        invariant
            i <= n,
            n == cells@.len(),
            cells_m == cells.deep_view(),
            cells_m.len() == n,
            out@.len() == i,
            forall|j: int| 0 <= j < i ==> index_row_id((#[trigger] cells_m[j]).record) is Some,
            forall|j: int| 0 <= j < i ==> out@[j] == index_row_id(cells_m[j].record)->Some_0,
        decreases n - i,
    {
        proof {
            assert(cells_m[i as int] == cells@[i as int]@);
        }
        let r = match cells[i].row_id() {
            Ok(v) => v,
            Err(_) => {
                proof {
                    lemma_rows_of_none(cells_m, i as int);
                }
                return Err(Error::Decode);
            },
        };
        out.push(r);
        i = i + 1;
    }
    proof {
        lemma_rows_of_all(cells_m);
        assert(out@ =~= Seq::new(cells_m.len(), |j: int| index_row_id(cells_m[j].record)->Some_0));
    }
    Ok(out)
}

} // verus!
