//! Append-only per-subscription charge statements and their paginated views.
//!
//! Every charge appends an immutable row. A subscription's rows, in the order
//! in which they were appended, are numbered by their `sequence`, from 0 up;
//! the row at position `k` of a subscription's history has sequence `k`.
use vstd::prelude::*;

use crate::address::Address;
use crate::seq_facts::{lemma_filter_take_len_le, lemma_filter_take_succ};
use crate::types::Error;
use crate::vault::{lemma_wf_after_ledger_change, SubscriptionVault};

verus! {

/// What a charge was for.
#[derive(Clone, Copy, Debug, PartialEq, Eq, Structural)]
pub enum BillingChargeKind {
    Interval,
    Usage,
    OneOff,
}

/// One immutable charge row.
#[derive(Clone, Copy, Debug, PartialEq, Eq, Structural)]
pub struct BillingStatement {
    pub subscription_id: u32,
    pub sequence: u32,
    pub charged_at: u64,
    pub period_start: u64,
    pub period_end: u64,
    pub amount: i128,
    pub merchant: Address,
    pub kind: BillingChargeKind,
}

/// All rows of all subscriptions, in the order in which they were appended.
pub struct StatementLedger {
    pub rows: Vec<BillingStatement>,
}

/// One page of a subscription's history.
pub struct BillingStatementsPage {
    pub statements: Vec<BillingStatement>,
    pub next_cursor: Option<u32>,
    pub total: u32,
}

/// Whether a row belongs to the subscription `id`.
pub open spec fn is_row_of(id: u32) -> spec_fn(BillingStatement) -> bool {
    |r: BillingStatement| r.subscription_id == id
}

/// A subscription's history: its rows in append order.
pub open spec fn rows_of(rows: Seq<BillingStatement>, id: u32) -> Seq<BillingStatement> {
    rows.filter(is_row_of(id))
}

/// The history of `id` in `vault`.
pub open spec fn history(vault: SubscriptionVault, id: u32) -> Seq<BillingStatement> {
    rows_of(vault.ledger.rows@, id)
}

/// Each row of a history carries its position as its sequence number.
pub open spec fn sequences_dense(h: Seq<BillingStatement>) -> bool {
    forall|k: int| 0 <= k < h.len() ==> #[trigger] h[k].sequence == k
}

/// The sequence number of the `i`-th row of an offset page.
pub open spec fn offset_seq(total: int, offset: int, i: int, newest_first: bool) -> int {
    if newest_first {
        total - 1 - (offset + i)
    } else {
        offset + i
    }
}

/// Number of rows on an offset page (when the page is not empty).
pub open spec fn offset_page_len(total: int, offset: int, limit: int) -> int {
    if limit > total - offset {
        total - offset
    } else {
        limit
    }
}

/// The rows of the offset page `offset`, `limit` of history `h`.
pub open spec fn offset_page_rows(h: Seq<BillingStatement>, offset: u32, limit: u32, newest_first: bool) -> Seq<
    BillingStatement,
> {
    let total = h.len() as int;
    if total == 0 || offset >= total {
        Seq::empty()
    } else {
        Seq::new(
            offset_page_len(total, offset as int, limit as int) as nat,
            |i: int| h[offset_seq(total, offset as int, i, newest_first)],
        )
    }
}

/// The cursor that an offset page hands back.
pub open spec fn offset_page_cursor(h: Seq<BillingStatement>, offset: u32, limit: u32, newest_first: bool) -> Option<
    u32,
> {
    let total = h.len() as int;
    if total == 0 || offset >= total {
        None
    } else {
        let consumed = offset + offset_page_len(total, offset as int, limit as int);
        if consumed < total {
            if newest_first {
                Some((total - 1 - consumed) as u32)
            } else {
                Some(consumed as u32)
            }
        } else {
            None
        }
    }
}

/// Where a cursor page starts, for a non-empty history of length `total`.
pub open spec fn cursor_start(total: int, cursor: Option<u32>, newest_first: bool) -> int {
    match cursor {
        Some(c) => c as int,
        None => if newest_first {
            total - 1
        } else {
            0
        },
    }
}

/// Number of rows on a cursor page starting at `start` (when not empty).
pub open spec fn cursor_taken(total: int, start: int, limit: int, newest_first: bool) -> int {
    let avail = if newest_first {
        start + 1
    } else {
        total - start
    };
    if limit < avail {
        limit
    } else {
        avail
    }
}

/// The rows of the cursor page of history `h`.
pub open spec fn cursor_page_rows(h: Seq<BillingStatement>, cursor: Option<u32>, limit: u32, newest_first: bool) -> Seq<
    BillingStatement,
> {
    let total = h.len() as int;
    let start = cursor_start(total, cursor, newest_first);
    if total == 0 || start >= total {
        Seq::empty()
    } else {
        Seq::new(
            cursor_taken(total, start, limit as int, newest_first) as nat,
            |i: int|
                if newest_first {
                    h[start - i]
                } else {
                    h[start + i]
                },
        )
    }
}

/// The cursor that a cursor page hands back.
pub open spec fn cursor_page_cursor(h: Seq<BillingStatement>, cursor: Option<u32>, limit: u32, newest_first: bool) -> Option<
    u32,
> {
    let total = h.len() as int;
    let start = cursor_start(total, cursor, newest_first);
    if total == 0 || start >= total {
        None
    } else {
        let taken = cursor_taken(total, start, limit as int, newest_first);
        if newest_first {
            if start + 1 > taken {
                Some((start - taken) as u32)
            } else {
                None
            }
        } else if start + taken < total {
            Some((start + taken) as u32)
        } else {
            None
        }
    }
}

/// The cursor that names the row at offset `offset` of a history of length
/// `total`, in the given order.
pub open spec fn cursor_for_offset(total: int, offset: u32, newest_first: bool) -> u32 {
    if newest_first {
        (total - 1 - offset) as u32
    } else {
        offset
    }
}

/// The two pagination styles agree: the offset page at `offset` is the cursor
/// page that starts at the row that offset names, and both hand back the same
/// cursor.
pub proof fn lemma_offset_page_is_cursor_page(
    h: Seq<BillingStatement>,
    offset: u32,
    limit: u32,
    newest_first: bool,
)
    requires
        h.len() <= u32::MAX,
        offset < h.len(),
    ensures
        offset_page_rows(h, offset, limit, newest_first) == cursor_page_rows(
            h,
            Some(cursor_for_offset(h.len() as int, offset, newest_first)),
            limit,
            newest_first,
        ),
        offset_page_cursor(h, offset, limit, newest_first) == cursor_page_cursor(
            h,
            Some(cursor_for_offset(h.len() as int, offset, newest_first)),
            limit,
            newest_first,
        ),
{
    let c = Some(cursor_for_offset(h.len() as int, offset, newest_first));
    assert(offset_page_rows(h, offset, limit, newest_first) =~= cursor_page_rows(
        h,
        c,
        limit,
        newest_first,
    ));
}

/// An offset page holds at most `limit` rows: exactly `limit`, or the rows
/// left after `offset` where fewer remain, taken in order from the newest or
/// the oldest row on; an offset at or past the end gives an empty page.
pub proof fn lemma_offset_page_shape(h: Seq<BillingStatement>, offset: u32, limit: u32, newest_first: bool)
    requires
        h.len() <= u32::MAX,
    ensures
        offset_page_rows(h, offset, limit, newest_first).len() <= limit,
        offset >= h.len() ==> offset_page_rows(h, offset, limit, newest_first).len() == 0,
        offset < h.len() ==> offset_page_rows(h, offset, limit, newest_first).len() == if limit < h.len()
            - offset {
            limit as int
        } else {
            h.len() - offset
        },
        forall|i: int|
            0 <= i < offset_page_rows(h, offset, limit, newest_first).len() ==> #[trigger] offset_page_rows(
                h,
                offset,
                limit,
                newest_first,
            )[i] == if newest_first {
                h[h.len() - 1 - offset - i]
            } else {
                h[offset + i]
            },
{
}

/// A cursor page holds at most `limit` rows, taken one by one from the row
/// that the cursor names (or from the newest or oldest row where there is no
/// cursor), towards the oldest or the newest row, and stops at the end of
/// the history.
pub proof fn lemma_cursor_page_shape(h: Seq<BillingStatement>, cursor: Option<u32>, limit: u32, newest_first: bool)
    requires
        h.len() <= u32::MAX,
    ensures
        cursor_page_rows(h, cursor, limit, newest_first).len() <= limit,
        forall|c: u32|
            cursor == Some(c) && c < h.len() ==> #[trigger] cursor_page_rows(h, Some(c), limit, newest_first).len()
                == if newest_first {
                if limit <= c {
                    limit as int
                } else {
                    c + 1
                }
            } else {
                if limit < h.len() - c {
                    limit as int
                } else {
                    h.len() - c
                }
            },
        forall|c: u32|
            cursor == Some(c) && c >= h.len() ==> #[trigger] cursor_page_rows(h, Some(c), limit, newest_first).len()
                == 0,
        cursor is None && h.len() > 0 ==> cursor_page_rows(h, cursor, limit, newest_first).len() == if limit
            < h.len() {
            limit as int
        } else {
            h.len() as int
        },
        forall|i: int|
            0 <= i < cursor_page_rows(h, cursor, limit, newest_first).len() ==> {
                let first = match cursor {
                    Some(c) => c as int,
                    None => if newest_first {
                        h.len() - 1
                    } else {
                        0
                    },
                };
                #[trigger] cursor_page_rows(h, cursor, limit, newest_first)[i] == if newest_first {
                    h[first - i]
                } else {
                    h[first + i]
                }
            },
{
}

/// Pagination is stable under appends: after any number of rows are appended
/// to a history, newest-first paging from an explicit cursor returns the same
/// rows and cursor as before, oldest-first paging returns the same rows,
/// possibly followed by more, and the total grows by the number of rows
/// appended.
pub proof fn lemma_cursor_page_stable_under_appends(
    h: Seq<BillingStatement>,
    appended: Seq<BillingStatement>,
    cursor: u32,
    limit: u32,
)
    requires
        h.len() + appended.len() <= u32::MAX,
        cursor < h.len(),
    ensures
        (h + appended).len() == h.len() + appended.len(),
        cursor_page_rows(h + appended, Some(cursor), limit, true) == cursor_page_rows(
            h,
            Some(cursor),
            limit,
            true,
        ),
        cursor_page_cursor(h + appended, Some(cursor), limit, true) == cursor_page_cursor(
            h,
            Some(cursor),
            limit,
            true,
        ),
        cursor_page_rows(h, Some(cursor), limit, false).is_prefix_of(
            cursor_page_rows(h + appended, Some(cursor), limit, false),
        ),
{
    let g = h + appended;
    assert(cursor_page_rows(g, Some(cursor), limit, true) =~= cursor_page_rows(
        h,
        Some(cursor),
        limit,
        true,
    ));
    let a = cursor_page_rows(h, Some(cursor), limit, false);
    let b = cursor_page_rows(g, Some(cursor), limit, false);
    assert forall|i: int| 0 <= i < a.len() implies a[i] == b[i] by {
        assert(g[cursor + i] == h[cursor + i]);
    }
}

/// An offset page's cursor continues it: the cursor page at the cursor that
/// an offset page hands back is the next offset page.
pub proof fn lemma_offset_cursor_continues(
    h: Seq<BillingStatement>,
    offset: u32,
    limit: u32,
    newest_first: bool,
    next: u32,
)
    requires
        h.len() <= u32::MAX,
        limit > 0,
        offset_page_cursor(h, offset, limit, newest_first) == Some(next),
    ensures
        offset + limit < h.len(),
        cursor_page_rows(h, Some(next), limit, newest_first) == offset_page_rows(
            h,
            (offset + limit) as u32,
            limit,
            newest_first,
        ),
        cursor_page_cursor(h, Some(next), limit, newest_first) == offset_page_cursor(
            h,
            (offset + limit) as u32,
            limit,
            newest_first,
        ),
{
    let following = (offset + limit) as u32;
    lemma_offset_page_is_cursor_page(h, following, limit, newest_first);
}

/// How many rows a cursor page and the pages after it can still reach, in
/// the page order; 0 when the cursor is past the history.
pub open spec fn cursor_reach(h: Seq<BillingStatement>, cursor: Option<u32>, newest_first: bool) -> int {
    let total = h.len() as int;
    let start = cursor_start(total, cursor, newest_first);
    if total == 0 || start >= total || total > u32::MAX {
        0
    } else if newest_first {
        start + 1
    } else {
        total - start
    }
}

/// The rows of the cursor page at `cursor` and of every page reached by
/// following the cursors that the pages hand back, in order.
pub open spec fn cursor_walk(h: Seq<BillingStatement>, cursor: Option<u32>, limit: u32, newest_first: bool) -> Seq<
    BillingStatement,
>
    decreases cursor_reach(h, cursor, newest_first),
{
    if limit == 0 || cursor_reach(h, cursor, newest_first) == 0 {
        Seq::empty()
    } else {
        let rows = cursor_page_rows(h, cursor, limit, newest_first);
        match cursor_page_cursor(h, cursor, limit, newest_first) {
            Some(c) => rows + cursor_walk(h, Some(c), limit, newest_first),
            None => rows,
        }
    }
}

/// The number of pages of that walk.
pub open spec fn cursor_walk_pages(h: Seq<BillingStatement>, cursor: Option<u32>, limit: u32, newest_first: bool) -> int
    decreases cursor_reach(h, cursor, newest_first),
{
    if limit == 0 || cursor_reach(h, cursor, newest_first) == 0 {
        0
    } else {
        match cursor_page_cursor(h, cursor, limit, newest_first) {
            Some(c) => 1 + cursor_walk_pages(h, Some(c), limit, newest_first),
            None => 1,
        }
    }
}

proof fn lemma_cursor_walk_from(h: Seq<BillingStatement>, cursor: Option<u32>, limit: u32, newest_first: bool)
    requires
        h.len() <= u32::MAX,
        limit > 0,
        0 <= cursor_start(h.len() as int, cursor, newest_first) < h.len(),
    ensures
        cursor_walk(h, cursor, limit, newest_first) == if newest_first {
            h.subrange(0, cursor_start(h.len() as int, cursor, newest_first) + 1).reverse()
        } else {
            h.subrange(cursor_start(h.len() as int, cursor, newest_first), h.len() as int)
        },
        cursor_walk_pages(h, cursor, limit, newest_first) == (cursor_reach(h, cursor, newest_first)
            + limit - 1) / (limit as int),
    decreases cursor_reach(h, cursor, newest_first),
{
    let total = h.len() as int;
    let start = cursor_start(total, cursor, newest_first);
    let l = limit as int;
    let r = cursor_reach(h, cursor, newest_first);
    let taken = cursor_taken(total, start, l, newest_first);
    let rows = cursor_page_rows(h, cursor, limit, newest_first);
    match cursor_page_cursor(h, cursor, limit, newest_first) {
        Some(c) => {
            lemma_cursor_walk_from(h, Some(c), limit, newest_first);
            if newest_first {
                assert(rows + h.subrange(0, c + 1).reverse() =~= h.subrange(0, start + 1).reverse());
            } else {
                assert(rows + h.subrange(c as int, total) =~= h.subrange(start, total));
            }
            assert(taken == l);
            assert(cursor_reach(h, Some(c), newest_first) == r - l);
            assert(1 + (r - l + l - 1) / l == (l + (r - l + l - 1)) / l) by {
                vstd::arithmetic::div_mod::lemma_div_plus_one(r - l + l - 1, l);
            }
        },
        None => {
            if newest_first {
                assert(rows =~= h.subrange(0, start + 1).reverse());
            } else {
                assert(rows =~= h.subrange(start, total));
            }
            assert(taken == r);
            assert((r + l - 1) / l == 1) by {
                vstd::arithmetic::div_mod::lemma_div_plus_one(r - 1, l);
                vstd::arithmetic::div_mod::lemma_basic_div(r - 1, l);
            }
        },
    }
}

/// Following the cursors from the first page visits every row of the history
/// exactly once, newest first or oldest first, and stops after
/// `ceil(total / limit)` pages.
pub proof fn lemma_cursor_walk_covers_history(h: Seq<BillingStatement>, limit: u32, newest_first: bool)
    requires
        0 < h.len() <= u32::MAX,
        limit > 0,
    ensures
        cursor_walk(h, None, limit, newest_first) == if newest_first {
            h.reverse()
        } else {
            h
        },
        cursor_walk_pages(h, None, limit, newest_first) == (h.len() + limit - 1) / (limit as int),
{
    lemma_cursor_walk_from(h, None, limit, newest_first);
    assert(h.subrange(0, h.len() as int) =~= h);
}

/// Collects the history of `subscription_id`.
fn collect_history(rows: &Vec<BillingStatement>, subscription_id: u32) -> (out: Vec<BillingStatement>)
    ensures
        out@ == rows_of(rows@, subscription_id),
{
    let mut out: Vec<BillingStatement> = Vec::new();
    let mut i: usize = 0;
    while i < rows.len()
        invariant
            i <= rows.len(),
            out@ == rows@.take(i as int).filter(is_row_of(subscription_id)),
        decreases rows.len() - i,
    {
        proof {
            lemma_filter_take_succ(rows@, is_row_of(subscription_id), i as int);
        }
        if rows[i].subscription_id == subscription_id {
            out.push(rows[i]);
        }
        i += 1;
    }
    proof {
        assert(rows@.take(rows@.len() as int) =~= rows@);
    }
    out
}

/// Counts the rows of `subscription_id`.
fn count_history(rows: &Vec<BillingStatement>, subscription_id: u32) -> (n: u32)
    requires
        rows_of(rows@, subscription_id).len() <= u32::MAX,
    ensures
        n == rows_of(rows@, subscription_id).len(),
{
    let mut n: u32 = 0;
    let mut i: usize = 0;
    while i < rows.len()
        invariant
            i <= rows.len(),
            rows_of(rows@, subscription_id).len() <= u32::MAX,
            n == rows@.take(i as int).filter(is_row_of(subscription_id)).len(),
        decreases rows.len() - i,
    {
        proof {
            lemma_filter_take_succ(rows@, is_row_of(subscription_id), i as int);
            lemma_filter_take_len_le(rows@, is_row_of(subscription_id), i + 1);
        }
        if rows[i].subscription_id == subscription_id {
            n += 1;
        }
        i += 1;
    }
    proof {
        assert(rows@.take(rows@.len() as int) =~= rows@);
    }
    n
}

/// Appends an immutable charge row for `subscription_id`, stamped `now`, with
/// the next sequence number of that subscription.
pub fn append_statement(
    vault: &mut SubscriptionVault,
    subscription_id: u32,
    amount: i128,
    merchant: Address,
    kind: BillingChargeKind,
    period_start: u64,
    period_end: u64,
    now: u64,
)
    requires
        history(*old(vault), subscription_id).len() < u32::MAX,
    ensures
        final(vault).ledger.rows@ == old(vault).ledger.rows@.push(
            BillingStatement {
                subscription_id,
                sequence: history(*old(vault), subscription_id).len() as u32,
                charged_at: now,
                period_start,
                period_end,
                amount,
                merchant,
                kind,
            },
        ),
        history(*final(vault), subscription_id) == history(*old(vault), subscription_id).push(
            final(vault).ledger.rows@.last(),
        ),
        forall|other: u32|
            other != subscription_id ==> #[trigger] history(*final(vault), other) == history(
                *old(vault),
                other,
            ),
        forall|s: u32|
            sequences_dense(history(*old(vault), s)) ==> #[trigger] sequences_dense(
                history(*final(vault), s),
            ),
        final(vault).config == old(vault).config,
        final(vault).subscriptions == old(vault).subscriptions,
        final(vault).billing == old(vault).billing,
        final(vault).metadata == old(vault).metadata,
        old(vault).wf() ==> final(vault).wf(),
{
    let next = count_history(&vault.ledger.rows, subscription_id);
    let statement = BillingStatement {
        subscription_id,
        sequence: next,
        charged_at: now,
        period_start,
        period_end,
        amount,
        merchant,
        kind,
    };
    let ghost before = vault.ledger.rows@;
    vault.ledger.rows.push(statement);
    proof {
        before.lemma_filter_push(statement, is_row_of(subscription_id));
        assert forall|other: u32| other != subscription_id implies #[trigger] history(
            *vault,
            other,
        ) == history(*old(vault), other) by {
            before.lemma_filter_push(statement, is_row_of(other));
        }
        assert forall|s: u32| sequences_dense(history(*old(vault), s)) implies #[trigger] sequences_dense(
            history(*vault, s),
        ) by {
            before.lemma_filter_push(statement, is_row_of(s));
        }
        if old(vault).wf() {
            assert forall|s: u32|
                #![trigger history(*vault, s)]
                sequences_dense(history(*vault, s)) && history(*vault, s).len() <= u32::MAX by {
                assert(sequences_dense(history(*old(vault), s)));
                before.lemma_filter_push(statement, is_row_of(s));
            }
            lemma_wf_after_ledger_change(*old(vault), *vault);
        }
    }
}

/// Number of rows appended so far for `subscription_id`.
pub fn get_total_statements(vault: &SubscriptionVault, subscription_id: u32) -> (n: u32)
    requires
        history(*vault, subscription_id).len() <= u32::MAX,
    ensures
        n == history(*vault, subscription_id).len(),
{
    count_history(&vault.ledger.rows, subscription_id)
}

/// Offset/limit pagination over a subscription's immutable history.
///
/// When `newest_first` is true, offset 0 is the most recent row. A `limit` of
/// 0 is refused with `InvalidInput`.
pub fn get_statements_by_subscription_offset(
    vault: &SubscriptionVault,
    subscription_id: u32,
    offset: u32,
    limit: u32,
    newest_first: bool,
) -> (r: Result<BillingStatementsPage, Error>)
    requires
        history(*vault, subscription_id).len() <= u32::MAX,
    ensures
        limit == 0 <==> r is Err,
        r matches Err(e) ==> e == Error::InvalidInput,
        r matches Ok(page) ==> {
            let h = history(*vault, subscription_id);
            &&& page.total == h.len()
            &&& page.statements@ == offset_page_rows(h, offset, limit, newest_first)
            &&& page.next_cursor == offset_page_cursor(h, offset, limit, newest_first)
            &&& page.statements@.len() <= limit
            &&& offset < h.len() ==> page.statements@.len() == if limit < h.len() - offset {
                limit as int
            } else {
                h.len() - offset
            }
        },
{
    proof {
        lemma_offset_page_shape(history(*vault, subscription_id), offset, limit, newest_first);
    }
    if limit == 0 {
        return Err(Error::InvalidInput);
    }
    let h = collect_history(&vault.ledger.rows, subscription_id);
    let ghost hs = h@;
    let total = h.len() as u32;
    if total == 0 || offset >= total {
        proof {
            assert(offset_page_rows(hs, offset, limit, newest_first) =~= Seq::<BillingStatement>::empty());
        }
        return Ok(BillingStatementsPage { statements: Vec::new(), next_cursor: None, total });
    }
    let remaining = total - offset;
    let page_len = if limit > remaining {
        remaining
    } else {
        limit
    };
    let mut out: Vec<BillingStatement> = Vec::new();
    let mut i: u32 = 0;
    while i < page_len
        invariant
            h@ == hs,
            total == hs.len(),
            offset < total,
            page_len == offset_page_len(total as int, offset as int, limit as int),
            i <= page_len,
            out@ =~= Seq::new(
                i as nat,
                |k: int| hs[offset_seq(total as int, offset as int, k, newest_first)],
            ),
        decreases page_len - i,
    {
        let seq = if newest_first {
            total - 1 - (offset + i)
        } else {
            offset + i
        };
        out.push(h[seq as usize]);
        i += 1;
    }
    let consumed = offset + page_len;
    let next_cursor = if consumed < total {
        if newest_first {
            Some(total - 1 - consumed)
        } else {
            Some(consumed)
        }
    } else {
        None
    };
    Ok(BillingStatementsPage { statements: out, next_cursor, total })
}

/// Cursor pagination over a subscription's immutable history.
///
/// `cursor` is the sequence number to start from, inclusive; `None` starts at
/// the newest or the oldest row, as `newest_first` says. A `limit` of 0 is
/// refused with `InvalidInput`.
pub fn get_statements_by_subscription_cursor(
    vault: &SubscriptionVault,
    subscription_id: u32,
    cursor: Option<u32>,
    limit: u32,
    newest_first: bool,
) -> (r: Result<BillingStatementsPage, Error>)
    requires
        history(*vault, subscription_id).len() <= u32::MAX,
    ensures
        limit == 0 <==> r is Err,
        r matches Err(e) ==> e == Error::InvalidInput,
        r matches Ok(page) ==> {
            let h = history(*vault, subscription_id);
            &&& page.total == h.len()
            &&& page.statements@ == cursor_page_rows(h, cursor, limit, newest_first)
            &&& page.next_cursor == cursor_page_cursor(h, cursor, limit, newest_first)
            &&& page.statements@.len() <= limit
        },
{
    proof {
        lemma_cursor_page_shape(history(*vault, subscription_id), cursor, limit, newest_first);
    }
    if limit == 0 {
        return Err(Error::InvalidInput);
    }
    let h = collect_history(&vault.ledger.rows, subscription_id);
    let ghost hs = h@;
    let total = h.len() as u32;
    if total == 0 {
        proof {
            assert(cursor_page_rows(hs, cursor, limit, newest_first) =~= Seq::<BillingStatement>::empty());
        }
        return Ok(BillingStatementsPage { statements: Vec::new(), next_cursor: None, total });
    }
    let start = match cursor {
        Some(c) => c,
        None => {
            if newest_first {
                total - 1
            } else {
                0
            }
        },
    };
    if start >= total {
        proof {
            assert(cursor_page_rows(hs, cursor, limit, newest_first) =~= Seq::<BillingStatement>::empty());
        }
        return Ok(BillingStatementsPage { statements: Vec::new(), next_cursor: None, total });
    }
    let mut out: Vec<BillingStatement> = Vec::new();
    let mut taken: u32 = 0;
    if newest_first {
        while taken < limit && taken <= start
            invariant
                h@ == hs,
                total == hs.len(),
                start < total,
                start == cursor_start(total as int, cursor, newest_first),
                newest_first,
                taken <= limit,
                taken <= start + 1,
                out@ =~= Seq::new(taken as nat, |k: int| hs[start - k]),
            decreases start + 1 - taken,
        {
            out.push(h[(start - taken) as usize]);
            taken += 1;
        }
        let next_cursor = if start + 1 > taken {
            Some(start - taken)
        } else {
            None
        };
        return Ok(BillingStatementsPage { statements: out, next_cursor, total });
    }
    let mut seq = start;
    while seq < total && taken < limit
        invariant
            h@ == hs,
            total == hs.len(),
            start < total,
            start == cursor_start(total as int, cursor, newest_first),
            !newest_first,
            seq == start + taken,
            seq <= total,
            taken <= limit,
            out@ =~= Seq::new(taken as nat, |k: int| hs[start + k]),
        decreases total - seq,
    {
        out.push(h[seq as usize]);
        taken += 1;
        seq += 1;
    }
    let next_cursor = if seq < total {
        Some(seq)
    } else {
        None
    };
    Ok(BillingStatementsPage { statements: out, next_cursor, total })
}

} // verus!
