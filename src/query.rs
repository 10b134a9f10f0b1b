use vstd::prelude::*;

use crate::decimal::Decimal;
use crate::state::Liability;

verus! {

/// Page size when the caller names none.
pub const DEFAULT_LIMIT: u32 = 10;

/// Largest page size.
pub const MAX_LIMIT: u32 = 30;

/// A borrower's stored record, as a query reports it.
#[derive(Clone, Debug, PartialEq, Eq)]
pub struct LiabilityResponse {
    /// The borrower's canonical address.
    pub borrower: Vec<u8>,
    pub interest_index: Decimal,
    pub loan_amount: u128,
}

impl View for LiabilityResponse {
    type V = (Seq<u8>, Decimal, u128);

    open spec fn view(&self) -> (Seq<u8>, Decimal, u128) {
        (self.borrower@, self.interest_index, self.loan_amount)
    }
}

/// `a` sorts strictly before `b` in byte order (a proper prefix sorts first).
pub open spec fn address_lt(a: Seq<u8>, b: Seq<u8>) -> bool {
    exists|i: int|
        #![trigger a.subrange(0, i)]
        0 <= i <= a.len() && i <= b.len() && a.subrange(0, i) == b.subrange(0, i) && ((i
            < a.len() && i < b.len() && a[i] < b[i]) || (i == a.len() && i < b.len()))
}

/// Whether a record belongs on a page that starts after `start_after`.
pub open spec fn after_cursor(start_after: Option<Seq<u8>>, borrower: Seq<u8>) -> bool {
    match start_after {
        None => true,
        Some(c) => address_lt(c, borrower),
    }
}

/// The cursor as a byte sequence.
pub open spec fn cursor_view(start_after: &Option<Vec<u8>>) -> Option<Seq<u8>> {
    match start_after {
        Some(c) => Some(c@),
        None => None,
    }
}

/// The page size actually used.
pub open spec fn page_size(limit: Option<u32>) -> nat {
    match limit {
        None => DEFAULT_LIMIT as nat,
        Some(n) => if n > MAX_LIMIT {
            MAX_LIMIT as nat
        } else {
            n as nat
        },
    }
}

/// The first `n` records, in the order given, that come after the cursor.
pub open spec fn page(
    records: Seq<(Seq<u8>, Decimal, u128)>,
    start_after: Option<Seq<u8>>,
    n: nat,
) -> Seq<(Seq<u8>, Decimal, u128)>
    decreases records.len(),
{
    if records.len() == 0 || n == 0 {
        Seq::empty()
    } else if after_cursor(start_after, records[0].0) {
        seq![records[0]] + page(records.drop_first(), start_after, (n - 1) as nat)
    } else {
        page(records.drop_first(), start_after, n)
    }
}

/// Whether `a` sorts strictly before `b` in byte order.
pub fn address_less(a: &[u8], b: &[u8]) -> (r: bool)
    ensures
        r == address_lt(a@, b@),
{
    let mut i: usize = 0;
    while i < a.len() && i < b.len() && a[i] == b[i]
        invariant
            0 <= i <= a@.len(),
            i <= b@.len(),
            a@.subrange(0, i as int) == b@.subrange(0, i as int),
        decreases a@.len() - i,
    {
        proof {
            assert(a@.subrange(0, i + 1) =~= a@.subrange(0, i as int).push(a@[i as int]));
            assert(b@.subrange(0, i + 1) =~= b@.subrange(0, i as int).push(b@[i as int]));
        }
        i = i + 1;
    }
    let r = if i < a.len() && i < b.len() {
        a[i] < b[i]
    } else {
        i == a.len() && i < b.len()
    };
    proof {
        let k = i as int;
        if r {
            assert(a@.subrange(0, k) == b@.subrange(0, k));
        } else {
            assert forall|j: int|
                0 <= j <= a@.len() && j <= b@.len() && #[trigger] a@.subrange(0, j) == b@.subrange(0, j)
                implies !((j < a@.len() && j < b@.len() && a@[j] < b@[j]) || (j == a@.len() && j
                < b@.len())) by {
                if j < k {
                    assert(a@[j] == a@.subrange(0, k)[j]);
                    assert(b@[j] == b@.subrange(0, k)[j]);
                } else if j > k {
                    assert(a@[k] == a@.subrange(0, j)[k]);
                    assert(b@[k] == b@.subrange(0, j)[k]);
                }
            }
        }
    }
    r
}

/// A fresh copy of an address.
fn copy_address(a: &[u8]) -> (r: Vec<u8>)
    ensures
        r@ == a@,
{
    let mut out: Vec<u8> = Vec::new();
    let mut i: usize = 0;
    while i < a.len()
        invariant
            0 <= i <= a@.len(),
            out@ == a@.subrange(0, i as int),
        decreases a@.len() - i,
    {
        out.push(a[i]);
        i = i + 1;
        proof {
            assert(out@ =~= a@.subrange(0, i as int));
        }
    }
    proof {
        assert(out@ =~= a@);
    }
    out
}

/// The stored record of `borrower`, as it stands: no interest is projected.
pub fn query_liability(borrower: Vec<u8>, liability: &Liability) -> (r: LiabilityResponse)
    ensures
        r.borrower@ == borrower@,
        r.interest_index == liability.interest_index,
        r.loan_amount == liability.loan_amount,
{
    LiabilityResponse {
        borrower,
        interest_index: liability.interest_index,
        loan_amount: liability.loan_amount,
    }
}

/// One page of stored records: those whose borrower sorts after `start_after`,
/// at most `limit` of them (ten by default, thirty at most), in the order of
/// `records`, which the store hands over sorted by borrower.
pub fn query_liabilities(
    records: &Vec<LiabilityResponse>,
    start_after: Option<Vec<u8>>,
    limit: Option<u32>,
) -> (r: Vec<LiabilityResponse>)
    ensures
        r@.map_values(|x: LiabilityResponse| x@) == page(
            records@.map_values(|x: LiabilityResponse| x@),
            cursor_view(&start_after),
            page_size(limit),
        ),
{
    let n: u32 = match limit {
        None => DEFAULT_LIMIT,
        Some(k) => if k > MAX_LIMIT {
            MAX_LIMIT
        } else {
            k
        },
    };
    let ghost cursor: Option<Seq<u8>> = cursor_view(&start_after);
    let ghost all = records@.map_values(|x: LiabilityResponse| x@);
    let mut out: Vec<LiabilityResponse> = Vec::new();
    let mut i: usize = 0;
    proof {
        assert(all.skip(0) =~= all);
        assert(out@.map_values(|x: LiabilityResponse| x@) + page(all, cursor, n as nat) =~= page(
            all,
            cursor,
            n as nat,
        ));
    }
    while i < records.len() && out.len() < n as usize
        invariant
            0 <= i <= records@.len(),
            out@.len() <= n,
            n == page_size(limit),
            all == records@.map_values(|x: LiabilityResponse| x@),
            cursor == cursor_view(&start_after),
            page(all, cursor, n as nat) == out@.map_values(|x: LiabilityResponse| x@) + page(
                all.skip(i as int),
                cursor,
                (n - out@.len()) as nat,
            ),
        decreases records@.len() - i,
    {
        let rec = &records[i];
        let keep = match &start_after {
            None => true,
            Some(c) => address_less(c.as_slice(), rec.borrower.as_slice()),
        };
        proof {
            assert(all.skip(i as int)[0] == rec@);
            assert(all.skip(i as int).drop_first() =~= all.skip(i + 1));
        }
        if keep {
            let item = LiabilityResponse {
                borrower: copy_address(rec.borrower.as_slice()),
                interest_index: rec.interest_index,
                loan_amount: rec.loan_amount,
            };
            let ghost before = out@.map_values(|x: LiabilityResponse| x@);
            out.push(item);
            proof {
                assert(out@.map_values(|x: LiabilityResponse| x@) =~= before.push(rec@));
                assert(before + seq![rec@] + page(all.skip(i + 1), cursor, (n - out@.len()) as nat)
                    =~= before.push(rec@) + page(all.skip(i + 1), cursor, (n - out@.len()) as nat));
            }
        }
        i = i + 1;
    }
    proof {
        assert(page(all.skip(i as int), cursor, (n - out@.len()) as nat) =~= Seq::empty());
        assert(out@.map_values(|x: LiabilityResponse| x@) + Seq::<(Seq<u8>, Decimal, u128)>::empty()
            =~= out@.map_values(|x: LiabilityResponse| x@));
    }
    out
}

} // verus!
