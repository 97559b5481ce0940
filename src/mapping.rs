use vstd::prelude::*;

use crate::error::ReadError;
use crate::rows::rows_view;

verus! {

/// `m` is a table of matches between a header row and `nf` field names:
/// `m[h][f]` says whether the header of column `h` matches field name `f`.
pub open spec fn is_match_table(m: Seq<Seq<bool>>, nf: nat) -> bool {
    forall|h: int| 0 <= h < m.len() ==> #[trigger] m[h].len() == nf
}

/// A mapping for `n` columns in which no column feeds any field.
pub open spec fn unassigned(n: nat) -> Seq<Option<usize>> {
    Seq::new(n, |i: int| None)
}

/// The mapping that feeds field `i` from column `i`, for `n` columns.
pub open spec fn identity(n: nat) -> Seq<Option<usize>> {
    Seq::new(n, |i: int| Some(i as usize))
}

/// The first column at or after `from` whose header matches field `f` and
/// that `taken` does not yet assign to a field.
pub open spec fn first_free_match(
    m: Seq<Seq<bool>>,
    taken: Seq<Option<usize>>,
    f: int,
    from: int,
) -> Option<int>
    decreases m.len() - from,
{
    if from >= m.len() {
        None
    } else if m[from][f] && taken[from] is None {
        Some(from)
    } else {
        first_free_match(m, taken, f, from + 1)
    }
}

/// The mapping when columns may be reordered: the fields, in declared order,
/// each take the leftmost column that matches and that no earlier field took.
/// `None` when some field finds no such column.
pub open spec fn reordered(m: Seq<Seq<bool>>, nf: int) -> Option<Seq<Option<usize>>>
    decreases nf,
{
    if nf <= 0 {
        Some(unassigned(m.len()))
    } else {
        match reordered(m, nf - 1) {
            None => None,
            Some(taken) => match first_free_match(m, taken, nf - 1, 0) {
                None => None,
                Some(h) => Some(taken.update(h, Some((nf - 1) as usize))),
            },
        }
    }
}

/// The first column at or after `from` whose header matches field `f`.
pub open spec fn first_match(m: Seq<Seq<bool>>, f: int, from: int) -> Option<int>
    decreases m.len() - from,
{
    if from >= m.len() {
        None
    } else if m[from][f] {
        Some(from)
    } else {
        first_match(m, f, from + 1)
    }
}

/// The mapping when unused columns may be skipped but the order is kept:
/// the fields, in declared order, each take the first matching column to the
/// right of the previous field's column. Beside the mapping, the column where
/// the search for the next field starts. `None` when some field finds no
/// such column.
pub open spec fn in_order(m: Seq<Seq<bool>>, nf: int) -> Option<(Seq<Option<usize>>, int)>
    decreases nf,
{
    if nf <= 0 {
        Some((unassigned(m.len()), 0))
    } else {
        match in_order(m, nf - 1) {
            None => None,
            Some(prev) => match first_match(m, nf - 1, prev.1) {
                None => None,
                Some(h) => Some((prev.0.update(h, Some((nf - 1) as usize)), h + 1)),
            },
        }
    }
}

/// The column mapping for a header row with match table `m` and `nf` field
/// names: for each column, the field it feeds, if any.
pub open spec fn column_mapping(m: Seq<Seq<bool>>, nf: nat, reorder: bool, ignore_unused: bool) -> Result<
    Seq<Option<usize>>,
    ReadError,
> {
    let nh = m.len();
    if nh < nf || (nh > nf && !ignore_unused) {
        Err(ReadError::HeaderCountMismatch { expected: nf as usize, actual: nh as usize })
    } else if reorder {
        match reordered(m, nf as int) {
            Some(t) => Ok(t),
            None => Err(ReadError::HeaderNameMismatch),
        }
    } else if ignore_unused {
        match in_order(m, nf as int) {
            Some(p) => Ok(p.0),
            None => Err(ReadError::HeaderNameMismatch),
        }
    } else if forall|i: int| 0 <= i < nh ==> #[trigger] m[i][i] {
        Ok(identity(nh))
    } else {
        Err(ReadError::HeaderNameMismatch)
    }
}

/// The match table that a predicate gives: `m[h][f]` is a result that
/// `pred` may return for header `h` and field name `f`.
pub open spec fn matches_by<P: Fn(&Vec<u8>, &Vec<u8>) -> bool>(
    pred: P,
    headers: Seq<Vec<u8>>,
    names: Seq<Vec<u8>>,
    m: Seq<Seq<bool>>,
) -> bool {
    &&& m.len() == headers.len()
    &&& is_match_table(m, names.len())
    &&& forall|h: int, f: int|
        0 <= h < headers.len() && 0 <= f < names.len() ==> pred.ensures(
            (&headers[h], &names[f]),
            #[trigger] m[h][f],
        )
}

proof fn lemma_reordered_stays_failed(m: Seq<Seq<bool>>, a: int, b: int)
    requires
        0 <= a <= b,
        reordered(m, a) is None,
    ensures
        reordered(m, b) is None,
    decreases b - a,
{
    if a < b {
        lemma_reordered_stays_failed(m, a, b - 1);
    }
}

proof fn lemma_in_order_stays_failed(m: Seq<Seq<bool>>, a: int, b: int)
    requires
        0 <= a <= b,
        in_order(m, a) is None,
    ensures
        in_order(m, b) is None,
    decreases b - a,
{
    if a < b {
        lemma_in_order_stays_failed(m, a, b - 1);
    }
}

proof fn lemma_first_free_match_in_range(m: Seq<Seq<bool>>, taken: Seq<Option<usize>>, f: int, from: int)
    requires
        0 <= from,
    ensures
        first_free_match(m, taken, f, from) matches Some(h) ==> from <= h < m.len(),
    decreases m.len() - from,
{
    if from < m.len() {
        lemma_first_free_match_in_range(m, taken, f, from + 1);
    }
}

proof fn lemma_first_match_in_range(m: Seq<Seq<bool>>, f: int, from: int)
    requires
        0 <= from,
    ensures
        first_match(m, f, from) matches Some(h) ==> from <= h < m.len(),
    decreases m.len() - from,
{
    if from < m.len() {
        lemma_first_match_in_range(m, f, from + 1);
    }
}

/// Under reordering, the first `k` fields take columns of the header row
/// and feed only fields below `k`.
pub proof fn lemma_reordered_in_range(m: Seq<Seq<bool>>, k: int)
    ensures
        reordered(m, k) matches Some(t) ==> t.len() == m.len() && forall|c: int|
            0 <= c < t.len() ==> match #[trigger] t[c] {
                Some(f) => f < k,
                None => true,
            },
    decreases k,
{
    if k > 0 {
        lemma_reordered_in_range(m, k - 1);
        if let Some(taken) = reordered(m, k - 1) {
            lemma_first_free_match_in_range(m, taken, k - 1, 0);
        }
    }
}

/// In order, the first `k` fields take columns of the header row and feed
/// only fields below `k`; the next search starts within the row.
pub proof fn lemma_in_order_in_range(m: Seq<Seq<bool>>, k: int)
    ensures
        in_order(m, k) matches Some(p) ==> p.0.len() == m.len() && 0 <= p.1 <= m.len() && forall|c: int|
            0 <= c < p.0.len() ==> match #[trigger] p.0[c] {
                Some(f) => f < k,
                None => true,
            },
    decreases k,
{
    if k > 0 {
        lemma_in_order_in_range(m, k - 1);
        if let Some(prev) = in_order(m, k - 1) {
            lemma_first_match_in_range(m, k - 1, prev.1);
        }
    }
}

/// Each field below `nf` is fed by exactly one column of `t`, and no column
/// feeds a field at or beyond `nf`.
pub open spec fn feeds_each_field_once(t: Seq<Option<usize>>, nf: nat) -> bool {
    &&& forall|c: int| 0 <= c < t.len() && #[trigger] t[c] is Some ==> t[c]->0 < nf
    &&& forall|c1: int, c2: int|
        0 <= c1 < t.len() && 0 <= c2 < t.len() && #[trigger] t[c1] is Some && #[trigger] t[c2] is Some
            && t[c1] == t[c2] ==> c1 == c2
    &&& forall|f: int| 0 <= f < nf ==> #[trigger] is_fed(t, f)
}

/// Some column of `t` feeds field `f`.
pub open spec fn is_fed(t: Seq<Option<usize>>, f: int) -> bool {
    exists|c: int| 0 <= c < t.len() && #[trigger] t[c] == Some(f as usize)
}

proof fn lemma_first_free_match_is_free(m: Seq<Seq<bool>>, taken: Seq<Option<usize>>, f: int, from: int)
    requires
        0 <= from,
    ensures
        first_free_match(m, taken, f, from) matches Some(h) ==> taken[h] is None,
    decreases m.len() - from,
{
    if from < m.len() {
        lemma_first_free_match_is_free(m, taken, f, from + 1);
    }
}

proof fn lemma_assign_new_field(t: Seq<Option<usize>>, k: nat, h: int)
    requires
        feeds_each_field_once(t, k),
        0 <= h < t.len(),
        t[h] is None,
        k < usize::MAX,
    ensures
        feeds_each_field_once(t.update(h, Some(k as usize)), k + 1),
{
    let u = t.update(h, Some(k as usize));
    assert forall|f: int| 0 <= f < k + 1 implies #[trigger] is_fed(u, f) by {
        if f == k {
            assert(u[h] == Some(f as usize));
        } else {
            assert(is_fed(t, f));
            let c = choose|c: int| 0 <= c < t.len() && #[trigger] t[c] == Some(f as usize);
            assert(c != h);
            assert(u[c] == Some(f as usize));
        }
    }
}

proof fn lemma_reordered_feeds_once(m: Seq<Seq<bool>>, k: int)
    requires
        0 <= k < usize::MAX,
    ensures
        reordered(m, k) matches Some(t) ==> t.len() == m.len() && feeds_each_field_once(t, k as nat),
    decreases k,
{
    if k == 0 {
        assert(feeds_each_field_once(unassigned(m.len()), 0));
    } else {
        lemma_reordered_feeds_once(m, k - 1);
        if let Some(taken) = reordered(m, k - 1) {
            lemma_first_free_match_in_range(m, taken, k - 1, 0);
            lemma_first_free_match_is_free(m, taken, k - 1, 0);
            if let Some(h) = first_free_match(m, taken, k - 1, 0) {
                lemma_assign_new_field(taken, (k - 1) as nat, h);
            }
        }
    }
}

proof fn lemma_in_order_feeds_once(m: Seq<Seq<bool>>, k: int)
    requires
        0 <= k < usize::MAX,
    ensures
        in_order(m, k) matches Some(p) ==> {
            &&& p.0.len() == m.len()
            &&& 0 <= p.1 <= m.len()
            &&& feeds_each_field_once(p.0, k as nat)
            &&& forall|c: int| p.1 <= c < p.0.len() ==> #[trigger] p.0[c] is None
        },
    decreases k,
{
    if k > 0 {
        lemma_in_order_feeds_once(m, k - 1);
        if let Some(prev) = in_order(m, k - 1) {
            lemma_first_match_in_range(m, k - 1, prev.1);
            if let Some(h) = first_match(m, k - 1, prev.1) {
                lemma_assign_new_field(prev.0, (k - 1) as nat, h);
            }
        }
    } else {
        assert(feeds_each_field_once(unassigned(m.len()), 0));
    }
}

/// Whatever the policy, a header row that reconciles with `nf` field names
/// gives a mapping with one entry per column in which every field is fed by
/// exactly one column; without reordering or skipping, it is the identity.
pub proof fn lemma_mapping_feeds_each_field_once(m: Seq<Seq<bool>>, nf: nat, reorder: bool, ignore_unused: bool)
    requires
        nf < usize::MAX,
    ensures
        column_mapping(m, nf, reorder, ignore_unused) matches Ok(t) ==> {
            &&& t.len() == m.len()
            &&& feeds_each_field_once(t, nf)
            &&& !reorder && !ignore_unused ==> t == identity(nf)
        },
{
    lemma_reordered_feeds_once(m, nf as int);
    lemma_in_order_feeds_once(m, nf as int);
    if column_mapping(m, nf, reorder, ignore_unused) is Ok && !reorder && !ignore_unused {
        let t = identity(nf);
        assert forall|f: int| 0 <= f < nf implies #[trigger] is_fed(t, f) by {
            assert(t[f] == Some(f as usize));
        }
    }
}

/// The default header predicate: a header matches a field name when their
/// bytes are equal.
pub fn exact_match(header: &Vec<u8>, name: &Vec<u8>) -> (r: bool)
    ensures
        r == (header@ == name@),
{
    if header.len() != name.len() {
        return false;
    }
    let mut i: usize = 0;
    while i < header.len()
        invariant
            header.len() == name.len(),
            i <= header.len(),
            forall|k: int| 0 <= k < i ==> header@[k] == name@[k],
        decreases header.len() - i,
    {
        if header[i] != name[i] {
            assert(header@[i as int] != name@[i as int]);
            return false;
        }
        i += 1;
    }
    assert(header@ =~= name@);
    true
}

/// The match table of the default predicate: a header matches a field name
/// when their bytes are equal.
pub open spec fn exact_table(headers: Seq<Seq<u8>>, names: Seq<Seq<u8>>) -> Seq<Seq<bool>> {
    Seq::new(headers.len(), |h: int| Seq::new(names.len(), |f: int| headers[h] == names[f]))
}

/// The table that `match_matrix` builds with the default predicate is the
/// table of byte equality.
pub proof fn lemma_exact_match_table(headers: Seq<Vec<u8>>, names: Seq<Vec<u8>>, m: Seq<Seq<bool>>)
    requires
        matches_by(exact_match, headers, names, m),
    ensures
        m == exact_table(rows_view(headers), rows_view(names)),
{
    let t = exact_table(rows_view(headers), rows_view(names));
    assert forall|h: int| 0 <= h < m.len() implies #[trigger] m[h] == t[h] by {
        assert forall|f: int| 0 <= f < names.len() implies #[trigger] m[h][f] == t[h][f] by {
            assert(exact_match.ensures((&headers[h], &names[f]), m[h][f]));
        }
        assert(m[h] =~= t[h]);
    }
    assert(m =~= t);
}

/// Asks `pred` once for every pair of a header and a field name.
pub fn match_matrix<P: Fn(&Vec<u8>, &Vec<u8>) -> bool>(
    headers: &Vec<Vec<u8>>,
    names: &Vec<Vec<u8>>,
    pred: &P,
) -> (r: Vec<Vec<bool>>)
    requires
        forall|h: &Vec<u8>, f: &Vec<u8>| pred.requires((h, f)),
    ensures
        matches_by(*pred, headers@, names@, rows_view(r@)),
{
    let mut table: Vec<Vec<bool>> = Vec::new();
    let mut h: usize = 0;
    while h < headers.len()
        invariant
            forall|x: &Vec<u8>, y: &Vec<u8>| pred.requires((x, y)),
            h <= headers.len(),
            table.len() == h,
            forall|i: int| 0 <= i < h ==> #[trigger] table@[i]@.len() == names.len(),
            forall|i: int, j: int|
                0 <= i < h && 0 <= j < names.len() ==> pred.ensures(
                    (&headers@[i], &names@[j]),
                    #[trigger] table@[i]@[j],
                ),
        decreases headers.len() - h,
    {
        let mut row: Vec<bool> = Vec::new();
        let mut f: usize = 0;
        while f < names.len()
            invariant
                forall|x: &Vec<u8>, y: &Vec<u8>| pred.requires((x, y)),
                h < headers.len(),
                f <= names.len(),
                row.len() == f,
                forall|j: int|
                    0 <= j < f ==> pred.ensures((&headers@[h as int], &names@[j]), #[trigger] row@[j]),
            decreases names.len() - f,
        {
            let b = pred(&headers[h], &names[f]);
            row.push(b);
            f += 1;
        }
        table.push(row);
        h += 1;
    }
    table
}

fn unassigned_columns(n: usize) -> (r: Vec<Option<usize>>)
    ensures
        r@ == unassigned(n as nat),
{
    let mut v: Vec<Option<usize>> = Vec::new();
    let mut i: usize = 0;
    while i < n
        invariant
            i <= n,
            v@ == unassigned(i as nat),
        decreases n - i,
    {
        v.push(None);
        i += 1;
        assert(v@ =~= unassigned(i as nat));
    }
    v
}

fn reorder_columns(matches: &Vec<Vec<bool>>, field_count: usize) -> (r: Option<Vec<Option<usize>>>)
    requires
        is_match_table(rows_view(matches@), field_count as nat),
    ensures
        match r {
            Some(v) => reordered(rows_view(matches@), field_count as int) == Some(v@),
            None => reordered(rows_view(matches@), field_count as int) is None,
        },
{
    let ghost m = rows_view(matches@);
    let nh = matches.len();
    let mut mapping = unassigned_columns(nh);
    let mut f: usize = 0;
    while f < field_count
        invariant
            m == rows_view(matches@),
            is_match_table(m, field_count as nat),
            nh == m.len(),
            f <= field_count,
            mapping@.len() == nh,
            reordered(m, f as int) == Some(mapping@),
        decreases field_count - f,
    {
        let mut h: usize = 0;
        while h < nh && !(matches[h][f] && mapping[h].is_none())
            invariant
                m == rows_view(matches@),
                is_match_table(m, field_count as nat),
                nh == m.len(),
                f < field_count,
                h <= nh,
                mapping@.len() == nh,
                first_free_match(m, mapping@, f as int, 0) == first_free_match(m, mapping@, f as int, h as int),
            decreases nh - h,
        {
            assert(m[h as int][f as int] == matches@[h as int]@[f as int]);
            h += 1;
        }
        if h == nh {
            proof {
                lemma_reordered_stays_failed(m, f + 1, field_count as int);
            }
            return None;
        }
        assert(m[h as int][f as int] == matches@[h as int]@[f as int]);
        mapping.set(h, Some(f));
        f += 1;
    }
    Some(mapping)
}

fn columns_in_order(matches: &Vec<Vec<bool>>, field_count: usize) -> (r: Option<Vec<Option<usize>>>)
    requires
        is_match_table(rows_view(matches@), field_count as nat),
    ensures
        match r {
            Some(v) => in_order(rows_view(matches@), field_count as int) matches Some(p) && p.0 == v@,
            None => in_order(rows_view(matches@), field_count as int) is None,
        },
{
    let ghost m = rows_view(matches@);
    let nh = matches.len();
    let mut mapping = unassigned_columns(nh);
    let mut cursor: usize = 0;
    let mut f: usize = 0;
    while f < field_count
        invariant
            m == rows_view(matches@),
            is_match_table(m, field_count as nat),
            nh == m.len(),
            f <= field_count,
            cursor <= nh,
            mapping@.len() == nh,
            in_order(m, f as int) == Some((mapping@, cursor as int)),
        decreases field_count - f,
    {
        let mut h: usize = cursor;
        while h < nh && !matches[h][f]
            invariant
                m == rows_view(matches@),
                is_match_table(m, field_count as nat),
                nh == m.len(),
                f < field_count,
                cursor <= h <= nh,
                first_match(m, f as int, cursor as int) == first_match(m, f as int, h as int),
            decreases nh - h,
        {
            assert(m[h as int][f as int] == matches@[h as int]@[f as int]);
            h += 1;
        }
        if h == nh {
            proof {
                lemma_in_order_stays_failed(m, f + 1, field_count as int);
            }
            return None;
        }
        assert(m[h as int][f as int] == matches@[h as int]@[f as int]);
        mapping.set(h, Some(f));
        cursor = h + 1;
        f += 1;
    }
    Some(mapping)
}

fn identity_columns(n: usize) -> (r: Vec<Option<usize>>)
    ensures
        r@ == identity(n as nat),
{
    let mut v: Vec<Option<usize>> = Vec::new();
    let mut i: usize = 0;
    while i < n
        invariant
            i <= n,
            v@ == identity(i as nat),
        decreases n - i,
    {
        v.push(Some(i));
        i += 1;
        assert(v@ =~= identity(i as nat));
    }
    v
}

/// Reconciles a header row with the field names of a record type, given
/// the table of which header matches which name (see `match_matrix`).
///
/// Without `reorder` and `ignore_unused_columns`, header `i` must match
/// field `i` for every `i`. With `reorder`, each field in declared order takes
/// the leftmost matching column that no earlier field took. With
/// `ignore_unused_columns` alone, each field takes the first matching column
/// to the right of the previous field's column, and the other columns are
/// skipped. There must be as many headers as fields, or more where unused
/// columns are ignored.
///
/// The result gives, for each column, the index of the field it feeds.
pub fn map_headers(
    matches: &Vec<Vec<bool>>,
    field_count: usize,
    reorder: bool,
    ignore_unused_columns: bool,
) -> (r: Result<Vec<Option<usize>>, ReadError>)
    requires
        is_match_table(rows_view(matches@), field_count as nat),
    ensures
        match r {
            Ok(v) => column_mapping(rows_view(matches@), field_count as nat, reorder, ignore_unused_columns)
                == Ok::<Seq<Option<usize>>, ReadError>(v@),
            Err(e) => column_mapping(rows_view(matches@), field_count as nat, reorder, ignore_unused_columns)
                == Err::<Seq<Option<usize>>, ReadError>(e),
        },
{
    let ghost m = rows_view(matches@);
    let nh = matches.len();
    if nh < field_count || (nh > field_count && !ignore_unused_columns) {
        return Err(ReadError::HeaderCountMismatch { expected: field_count, actual: nh });
    }
    if reorder {
        match reorder_columns(matches, field_count) {
            Some(v) => Ok(v),
            None => Err(ReadError::HeaderNameMismatch),
        }
    } else if ignore_unused_columns {
        match columns_in_order(matches, field_count) {
            Some(v) => Ok(v),
            None => Err(ReadError::HeaderNameMismatch),
        }
    } else {
        let mut i: usize = 0;
        while i < nh
            invariant
                m == rows_view(matches@),
                is_match_table(m, field_count as nat),
                nh == m.len(),
                nh == field_count,
                !reorder && !ignore_unused_columns,
                i <= nh,
                forall|k: int| 0 <= k < i ==> #[trigger] m[k][k],
            decreases nh - i,
        {
            assert(m[i as int][i as int] == matches@[i as int]@[i as int]);
            if !matches[i][i] {
                assert(!m[i as int][i as int]);
                return Err(ReadError::HeaderNameMismatch);
            }
            i += 1;
        }
        Ok(identity_columns(nh))
    }
}

} // verus!
