//! Pages: windows of a fixed size over a listing.
//!
//! Pages are numbered from one. Page `p` of size `s` holds the items at the
//! ranks `(p - 1) * s + 1` to `p * s`, as far as the listing reaches. A page
//! that would start behind the last item does not exist, with one exception:
//! the first page always exists, and is empty when the listing is.

use crate::error::StoreError;
use vstd::arithmetic::div_mod::{
    lemma_div_pos_is_pos, lemma_fundamental_div_mod, lemma_mod_pos_bound,
};
use vstd::arithmetic::mul::lemma_mul_inequality;
use vstd::prelude::*;

verus! {

/// The number of items that stand before page `page_no`, for a page number
/// of at least one.
pub open spec fn page_offset(page_no: nat, page_size: nat) -> nat {
    ((page_no - 1) * page_size) as nat
}

/// The half-open range of positions, counted from zero, that page `page_no`
/// covers in a listing of `len` items.
///
/// A page number or a page size of zero is an invalid argument. A page after
/// the first that starts at or behind `len` is not found.
pub open spec fn page_range(len: nat, page_no: nat, page_size: nat) -> Result<
    (nat, nat),
    StoreError,
> {
    if page_no == 0 || page_size == 0 {
        Err(StoreError::InvalidArgument)
    } else if page_no > 1 && page_offset(page_no, page_size) >= len {
        Err(StoreError::NotFound)
    } else {
        let start = page_offset(page_no, page_size);
        let end = if start + page_size < len {
            start + page_size
        } else {
            len
        };
        Ok((start, end))
    }
}

/// Page `page_no` of the listing `all`, cut into pages of `page_size` items.
pub open spec fn paginate<T>(all: Seq<T>, page_no: nat, page_size: nat) -> Result<
    Seq<T>,
    StoreError,
> {
    match page_range(all.len(), page_no, page_size) {
        Ok((start, end)) => Ok(all.subrange(start as int, end as int)),
        Err(e) => Err(e),
    }
}

/// The number of pages that a listing of `len` items has: the first page,
/// and as many more as it takes to reach the last item.
pub open spec fn page_count(len: nat, page_size: nat) -> nat {
    if len == 0 {
        1
    } else {
        ((len - 1) / (page_size as int) + 1) as nat
    }
}

/// The pages 1 to `upto` of `all`, one after the other.
pub open spec fn pages_joined<T>(all: Seq<T>, page_size: nat, upto: nat) -> Seq<T>
    decreases upto,
{
    if upto == 0 {
        Seq::empty()
    } else {
        let page = match paginate(all, upto, page_size) {
            Ok(page) => page,
            Err(_) => Seq::empty(),
        };
        pages_joined(all, page_size, (upto - 1) as nat) + page
    }
}

/// The last page starts before the end of a listing that is not empty, and
/// the page after it would start at the end or behind it.
proof fn lemma_page_count_bounds(len: nat, page_size: nat)
    requires
        len >= 1,
        page_size >= 1,
    ensures
        page_count(len, page_size) >= 1,
        page_offset(page_count(len, page_size), page_size) < len,
        page_offset(page_count(len, page_size) + 1, page_size) >= len,
{
    let x = (len - 1) as int;
    let s = page_size as int;
    let q = x / s;
    lemma_fundamental_div_mod(x, s);
    lemma_mod_pos_bound(x, s);
    lemma_div_pos_is_pos(x, s);
    assert(page_count(len, page_size) == q + 1);
    assert(q * s == s * q && (q + 1) * s == q * s + s) by (nonlinear_arith);
}

/// A later page starts no earlier than an earlier one, and each page starts
/// one page size behind the page before it.
proof fn lemma_page_offset_grows(a: nat, b: nat, page_size: nat)
    requires
        1 <= a <= b,
    ensures
        page_offset(a, page_size) <= page_offset(b, page_size),
        page_offset(a + 1, page_size) == page_offset(a, page_size) + page_size,
{
    lemma_mul_inequality(a - 1, b - 1, page_size as int);
    assert((a - 1 + 1) * page_size == (a - 1) * page_size + page_size) by (nonlinear_arith);
}

/// The first `upto` pages, joined, are the listing up to the start of the
/// page after them, or the whole listing if that page would start behind it.
proof fn lemma_pages_joined_prefix<T>(all: Seq<T>, page_size: nat, upto: nat)
    requires
        page_size >= 1,
        upto <= page_count(all.len(), page_size),
    ensures
        pages_joined(all, page_size, upto) == all.take(
            if page_offset(upto + 1, page_size) < all.len() {
                page_offset(upto + 1, page_size) as int
            } else {
                all.len() as int
            },
        ),
    decreases upto,
{
    let len = all.len();
    if upto == 0 {
        assert(page_offset(1, page_size) == 0);
        assert(pages_joined(all, page_size, 0) =~= all.take(0));
    } else {
        lemma_pages_joined_prefix(all, page_size, (upto - 1) as nat);
        lemma_page_offset_grows(upto, upto, page_size);
        let start = page_offset(upto, page_size);
        if len >= 1 {
            lemma_page_count_bounds(len, page_size);
            lemma_page_offset_grows(upto, page_count(len, page_size), page_size);
        } else {
            assert(start == 0) by (nonlinear_arith)
                requires
                    upto == 1,
                    start == (upto - 1) * page_size,
            ;
        }
        let end = if start + page_size < len {
            start + page_size
        } else {
            len
        };
        assert(paginate(all, upto, page_size) == Ok::<Seq<T>, StoreError>(
            all.subrange(start as int, end as int),
        ));
        assert(all.take(start as int) + all.subrange(start as int, end as int) =~= all.take(
            end as int,
        ));
    }
}

/// Reading a listing page by page, from the first page until a page is not
/// found, gives the whole listing back, in order and with nothing twice, for
/// every page size of at least one: exactly the pages 1 to
/// `page_count(all.len(), page_size)` exist, every later page is not found,
/// and the pages that exist, joined, are the listing.
pub proof fn lemma_pages_cover_listing<T>(all: Seq<T>, page_size: nat)
    requires
        page_size >= 1,
    ensures
        page_count(all.len(), page_size) >= 1,
        forall|p: nat|
            1 <= p <= page_count(all.len(), page_size) ==> (#[trigger] paginate(
                all,
                p,
                page_size,
            )) is Ok,
        forall|p: nat|
            p > page_count(all.len(), page_size) ==> (#[trigger] paginate(all, p, page_size))
                == Err::<Seq<T>, StoreError>(StoreError::NotFound),
        pages_joined(all, page_size, page_count(all.len(), page_size)) == all,
{
    let len = all.len();
    let count = page_count(len, page_size);
    if len >= 1 {
        lemma_page_count_bounds(len, page_size);
    }
    assert forall|p: nat| 1 <= p <= count implies (#[trigger] paginate(
        all,
        p,
        page_size,
    )) is Ok by {
        if len >= 1 {
            lemma_page_offset_grows(p, count, page_size);
        }
    }
    assert forall|p: nat| p > count implies (#[trigger] paginate(all, p, page_size)) == Err::<
        Seq<T>,
        StoreError,
    >(StoreError::NotFound) by {
        lemma_page_offset_grows(count + 1, p, page_size);
    }
    lemma_pages_joined_prefix(all, page_size, count);
    assert(all.take(len as int) =~= all);
}

/// The positions that a page covers in a listing of `len` items: the page
/// holds the items from `start` up to, not including, `end`.
///
/// Fails with [`StoreError::InvalidArgument`] exactly when the page number
/// or the page size is zero, and with [`StoreError::NotFound`] when a page
/// after the first would start behind the last item. A page so far out that
/// its start does not fit a `u128` is not found either: nothing overflows.
pub fn page_bounds(len: usize, page_no: u128, page_size: u128) -> (bounds: Result<
    (usize, usize),
    StoreError,
>)
    ensures
        match bounds {
            Ok((start, end)) => page_range(len as nat, page_no as nat, page_size as nat) == Ok::<
                (nat, nat),
                StoreError,
            >((start as nat, end as nat)),
            Err(e) => page_range(len as nat, page_no as nat, page_size as nat) == Err::<
                (nat, nat),
                StoreError,
            >(e),
        },
        (page_no == 0 || page_size == 0) <==> bounds == Err::<(usize, usize), StoreError>(
            StoreError::InvalidArgument,
        ),
        bounds matches Ok((start, end)) ==> start <= end <= len,
{
    if page_no == 0 || page_size == 0 {
        return Err(StoreError::InvalidArgument);
    }
    let ghost offset = page_offset(page_no as nat, page_size as nat);
    assert(offset == (page_no - 1) * page_size && (page_no == 1 ==> offset == 0))
        by (nonlinear_arith)
        requires
            page_no >= 1,
            offset == ((page_no as nat - 1) * (page_size as nat)) as nat,
    ;
    let start: usize = if page_no == 1 {
        0
    } else {
        match (page_no - 1).checked_mul(page_size) {
            Some(skipped) => {
                if skipped < len as u128 {
                    skipped as usize
                } else {
                    return Err(StoreError::NotFound);
                }
            },
            None => {
                return Err(StoreError::NotFound);
            },
        }
    };
    let room: usize = len - start;
    let end: usize = if page_size < room as u128 {
        start + page_size as usize
    } else {
        len
    };
    Ok((start, end))
}

} // verus!
