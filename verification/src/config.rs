//! The compute half of configuration handling: clamping a loaded window
//! geometry to the screen, and toggling column visibility. Reading and
//! writing the configuration file is the caller's concern.

use vstd::prelude::*;
use crate::transaction::{all_columns, LogColumn};

verus! {

/// The fallback window width and height used when a stored geometry is
/// implausible.
pub open spec fn clamped_dim(v: int, screen: int, fallback: int) -> int {
    if v <= 100 || v > screen {
        fallback
    } else {
        v
    }
}

/// Clamp a loaded window geometry: a dimension that is implausibly small or
/// larger than the screen falls back to the default.
pub fn clamp_window(width: i32, height: i32, screen_w: i32, screen_h: i32) -> (r: (i32, i32))
    ensures
        r.0 == clamped_dim(width as int, screen_w as int, 1000),
        r.1 == clamped_dim(height as int, screen_h as int, 700),
{
    let w = if width <= 100 || width > screen_w {
        1000
    } else {
        width
    };
    let h = if height <= 100 || height > screen_h {
        700
    } else {
        height
    };
    (w, h)
}

/// Whether a column occurs in a list.
pub open spec fn col_in(s: Seq<LogColumn>, col: LogColumn) -> bool {
    exists|i: int| 0 <= i < s.len() && s[i] == col
}

/// A list with every occurrence of one column removed, order kept.
pub open spec fn without_col(s: Seq<LogColumn>, col: LogColumn) -> Seq<LogColumn>
    decreases s.len(),
{
    if s.len() == 0 {
        Seq::empty()
    } else if s.last() == col {
        without_col(s.drop_last(), col)
    } else {
        without_col(s.drop_last(), col).push(s.last())
    }
}

/// The canonical columns that are either visible already or newly toggled
/// on, in canonical order.
pub open spec fn with_col(all: Seq<LogColumn>, visible: Seq<LogColumn>, col: LogColumn) -> Seq<
    LogColumn,
>
    decreases all.len(),
{
    if all.len() == 0 {
        Seq::empty()
    } else if col_in(visible, all.last()) || all.last() == col {
        with_col(all.drop_last(), visible, col).push(all.last())
    } else {
        with_col(all.drop_last(), visible, col)
    }
}

/// What toggling a column yields: a visible column is hidden — unless it is
/// the last one left — keeping the others' order; a hidden one is turned on
/// by rebuilding the visible set in canonical column order.
pub open spec fn toggled(visible: Seq<LogColumn>, col: LogColumn) -> Seq<LogColumn> {
    if col_in(visible, col) {
        if visible.len() > 1 {
            without_col(visible, col)
        } else {
            visible
        }
    } else {
        with_col(all_columns(), visible, col)
    }
}

/// Whether a column occurs in a vector.
fn contains_col(v: &Vec<LogColumn>, col: LogColumn) -> (r: bool)
    ensures
        r == col_in(v@, col),
{
    let n = v.len();
    let mut i: usize = 0;
    while i < n
        invariant
            n == v@.len(),
            0 <= i <= n,
            forall|k: int| 0 <= k < i ==> v@[k] != col,
        decreases n - i,
    {
        if v[i] == col {
            return true;
        }
        i += 1;
    }
    false
}

/// Toggle one column's visibility.
pub fn toggle_column(visible: &Vec<LogColumn>, col: LogColumn) -> (r: Vec<LogColumn>)
    ensures
        r@ == toggled(visible@, col),
{
    if contains_col(visible, col) {
        if visible.len() <= 1 {
            let mut r: Vec<LogColumn> = Vec::new();
            let n = visible.len();
            let mut i: usize = 0;
            while i < n
                invariant
                    n == visible@.len(),
                    0 <= i <= n,
                    r@ == visible@.take(i as int),
                decreases n - i,
            {
                r.push(visible[i]);
                proof {
                    assert(r@ =~= visible@.take(i + 1));
                }
                i += 1;
            }
            proof {
                assert(visible@.take(n as int) =~= visible@);
            }
            return r;
        }
        let mut r: Vec<LogColumn> = Vec::new();
        let n = visible.len();
        let mut i: usize = 0;
        proof {
            assert(r@ =~= without_col(visible@.take(0), col));
        }
        while i < n
            invariant
                n == visible@.len(),
                0 <= i <= n,
                r@ == without_col(visible@.take(i as int), col),
            decreases n - i,
        {
            proof {
                assert(visible@.take(i + 1).drop_last() =~= visible@.take(i as int));
                assert(visible@.take(i + 1).last() == visible@[i as int]);
            }
            if visible[i] != col {
                r.push(visible[i]);
            }
            i += 1;
        }
        proof {
            assert(visible@.take(n as int) =~= visible@);
        }
        r
    } else {
        let all = LogColumn::all();
        let mut r: Vec<LogColumn> = Vec::new();
        let n = all.len();
        let mut i: usize = 0;
        proof {
            assert(r@ =~= with_col(all_columns().take(0), visible@, col));
        }
        while i < n
            invariant
                n == all@.len(),
                all@ == all_columns(),
                0 <= i <= n,
                r@ == with_col(all_columns().take(i as int), visible@, col),
            decreases n - i,
        {
            proof {
                assert(all_columns().take(i + 1).drop_last() =~= all_columns().take(i as int));
                assert(all_columns().take(i + 1).last() == all_columns()[i as int]);
            }
            if contains_col(visible, all[i]) || all[i] == col {
                r.push(all[i]);
            }
            i += 1;
        }
        proof {
            assert(all_columns().take(n as int) =~= all_columns());
        }
        r
    }
}

} // verus!
