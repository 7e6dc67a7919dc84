use vstd::prelude::*;

verus! {

/// The zoom a row of a Hilbert UDF call is computed at, or `None` where the
/// row yields null. When no input column has a missing value (and there is
/// at least one row), the zoom is taken as a constant of the call: every row
/// uses the zoom of the first row. Otherwise every row uses its own zoom,
/// and a row with any missing input yields null.
pub open spec fn spec_row_zoom(x_present: Seq<bool>, y_present: Seq<bool>, zooms: Seq<Option<u8>>, i: int) -> Option<u8> {
    if all_present(x_present, y_present, zooms) && zooms.len() > 0 {
        zooms[0]
    } else if x_present[i] && y_present[i] {
        zooms[i]
    } else {
        None
    }
}

/// No input of any row is missing.
pub open spec fn all_present(x_present: Seq<bool>, y_present: Seq<bool>, zooms: Seq<Option<u8>>) -> bool {
    &&& forall|i: int| 0 <= i < x_present.len() ==> #[trigger] x_present[i]
    &&& forall|i: int| 0 <= i < y_present.len() ==> #[trigger] y_present[i]
    &&& forall|i: int| 0 <= i < zooms.len() ==> #[trigger] zooms[i] is Some
}

/// Law: a row yields a zoom exactly when none of its inputs is missing; a
/// row with a missing x, y or zoom yields null. When no row misses an input,
/// every row uses the first row's zoom; otherwise each row uses its own.
pub proof fn lemma_row_null_iff_missing(x_present: Seq<bool>, y_present: Seq<bool>, zooms: Seq<Option<u8>>, i: int)
    requires
        x_present.len() == zooms.len(),
        y_present.len() == zooms.len(),
        0 <= i < zooms.len(),
    ensures
        spec_row_zoom(x_present, y_present, zooms, i) is Some <==> (x_present[i] && y_present[i] && zooms[i] is Some),
        (forall|j: int| 0 <= j < zooms.len() ==> x_present[j] && y_present[j] && #[trigger] zooms[j] is Some) ==>
            spec_row_zoom(x_present, y_present, zooms, i) == zooms[0],
        (exists|j: int| 0 <= j < zooms.len() && !(x_present[j] && y_present[j] && #[trigger] zooms[j] is Some)) ==>
            spec_row_zoom(x_present, y_present, zooms, i) == (if x_present[i] && y_present[i] { zooms[i] } else { None }),
{
    if all_present(x_present, y_present, zooms) {
        assert(x_present[i] && y_present[i] && zooms[i] is Some && zooms[0] is Some);
    }
    if forall|j: int| 0 <= j < zooms.len() ==> x_present[j] && y_present[j] && #[trigger] zooms[j] is Some {
        assert forall|j: int| 0 <= j < x_present.len() implies #[trigger] x_present[j] by {
            assert(zooms[j] is Some);
        }
        assert forall|j: int| 0 <= j < y_present.len() implies #[trigger] y_present[j] by {
            assert(zooms[j] is Some);
        }
        assert(all_present(x_present, y_present, zooms));
    }
}

/// The zoom of each row of a Hilbert UDF call (see `spec_row_zoom`).
pub fn row_zooms(x_present: &Vec<bool>, y_present: &Vec<bool>, zooms: &Vec<Option<u8>>) -> (rows: Vec<Option<u8>>)
    requires
        x_present.len() == zooms.len(),
        y_present.len() == zooms.len(),
    ensures
        rows.len() == zooms.len(),
        forall|i: int| 0 <= i < zooms.len() ==> #[trigger] rows@[i] == spec_row_zoom(x_present@, y_present@, zooms@, i),
        forall|i: int| 0 <= i < zooms.len() ==>
            (#[trigger] rows@[i] is Some <==> (x_present@[i] && y_present@[i] && zooms@[i] is Some)),
{
    let n = zooms.len();
    let mut complete = n > 0;
    let mut i: usize = 0;
    while i < n
        invariant
            0 <= i <= n,
            n == zooms.len(),
            x_present.len() == n,
            y_present.len() == n,
            complete <==> (n > 0 && forall|j: int| 0 <= j < i ==> x_present@[j] && y_present@[j] && #[trigger] zooms@[j] is Some),
        decreases n - i,
    {
        if !x_present[i] || !y_present[i] || zooms[i].is_none() {
            complete = false;
        }
        proof {
            if zooms@[i as int] is Some && x_present@[i as int] && y_present@[i as int] {
            } else {
                assert(!(x_present@[i as int] && y_present@[i as int] && zooms@[i as int] is Some));
            }
        }
        i = i + 1;
    }
    proof {
        if complete {
            assert forall|j: int| 0 <= j < n implies #[trigger] x_present@[j] by {
                assert(zooms@[j] is Some);
            }
            assert forall|j: int| 0 <= j < n implies #[trigger] y_present@[j] by {
                assert(zooms@[j] is Some);
            }
        } else if n > 0 {
            if all_present(x_present@, y_present@, zooms@) {
                assert forall|j: int| 0 <= j < n implies x_present@[j] && y_present@[j] && #[trigger] zooms@[j] is Some by {
                    assert(x_present@[j]);
                    assert(y_present@[j]);
                }
            }
        }
    }
    let mut rows: Vec<Option<u8>> = Vec::new();
    let mut k: usize = 0;
    while k < n
        invariant
            0 <= k <= n,
            n == zooms.len(),
            x_present.len() == n,
            y_present.len() == n,
            complete <==> (all_present(x_present@, y_present@, zooms@) && n > 0),
            rows.len() == k,
            forall|j: int| 0 <= j < k ==> #[trigger] rows@[j] == spec_row_zoom(x_present@, y_present@, zooms@, j),
        decreases n - k,
    {
        let zoom = if complete {
            zooms[0]
        } else if x_present[k] && y_present[k] {
            zooms[k]
        } else {
            None
        };
        rows.push(zoom);
        k = k + 1;
    }
    proof {
        assert forall|i: int| 0 <= i < zooms.len() implies
            (#[trigger] rows@[i] is Some <==> (x_present@[i] && y_present@[i] && zooms@[i] is Some)) by {
            lemma_row_null_iff_missing(x_present@, y_present@, zooms@, i);
        }
    }
    rows
}

} // verus!
