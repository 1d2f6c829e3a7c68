//! The per-client price history of the price-query service: prices recorded
//! at timestamps, and the mean price over a window of time.
use vstd::prelude::*;

verus! {

/// The prices one client has recorded, at most one per timestamp.
///
/// The query sums the prices whose timestamps fall in a window. vstd specifies
/// no range walk over a `BTreeMap`, so the prices are kept in a vector whose
/// timestamps are distinct, and every query walks all of them.
pub struct PriceBook {
    entries: Vec<(i32, i32)>,
}

impl View for PriceBook {
    type V = Seq<(i32, i32)>;

    closed spec fn view(&self) -> Seq<(i32, i32)> {
        self.entries@
    }
}

/// No timestamp occurs twice.
pub open spec fn distinct_timestamps(s: Seq<(i32, i32)>) -> bool {
    forall|i: int, j: int| 0 <= i < j < s.len() ==> s[i].0 != s[j].0
}

/// `ts` has a price in `s`.
pub open spec fn has_timestamp(s: Seq<(i32, i32)>, ts: i32) -> bool {
    exists|i: int| 0 <= i < s.len() && s[i].0 == ts
}

/// Number of prices whose timestamp lies in `lo..=hi`.
pub open spec fn window_count(s: Seq<(i32, i32)>, lo: i32, hi: i32) -> nat
    decreases s.len(),
{
    if s.len() == 0 {
        0
    } else {
        window_count(s.drop_last(), lo, hi) + if lo <= s.last().0 <= hi {
            1nat
        } else {
            0nat
        }
    }
}

/// Sum of the prices whose timestamp lies in `lo..=hi`.
pub open spec fn window_sum(s: Seq<(i32, i32)>, lo: i32, hi: i32) -> int
    decreases s.len(),
{
    if s.len() == 0 {
        0
    } else {
        window_sum(s.drop_last(), lo, hi) + if lo <= s.last().0 <= hi {
            s.last().1 as int
        } else {
            0
        }
    }
}

/// Integer division rounded toward zero, for a positive divisor.
pub open spec fn div_toward_zero(a: int, b: int) -> int {
    if a >= 0 {
        a / b
    } else {
        -((-a) / b)
    }
}

/// The mean price over `lo..=hi`, rounded toward zero; 0 when the window is
/// empty or holds no price.
pub open spec fn window_mean(s: Seq<(i32, i32)>, lo: i32, hi: i32) -> int {
    if lo > hi || window_count(s, lo, hi) == 0 {
        0
    } else {
        div_toward_zero(window_sum(s, lo, hi), window_count(s, lo, hi) as int)
    }
}

impl PriceBook {
    /// A book with no price.
    pub fn new() -> (r: PriceBook)
        ensures
            r@ == Seq::<(i32, i32)>::empty(),
    {
        PriceBook { entries: Vec::new() }
    }

    /// The book's prices hold at most one price per timestamp.
    pub open spec fn wf(&self) -> bool {
        distinct_timestamps(self@)
    }
}

/// Records the price `message_data.1` at timestamp `message_data.0`, in place
/// of any price that timestamp had. Gives no reply.
pub fn handle_insert(message_data: &(i32, i32), client_data: &mut PriceBook) -> (r: Option<i32>)
    requires
        old(client_data).wf(),
    ensures
        r is None,
        final(client_data).wf(),
        has_timestamp(old(client_data)@, message_data.0) ==> exists|i: int|
            0 <= i < old(client_data)@.len() && old(client_data)@[i].0 == message_data.0
                && final(client_data)@ == old(client_data)@.update(i, *message_data),
        !has_timestamp(old(client_data)@, message_data.0) ==> final(client_data)@ == old(
            client_data,
        )@.push(*message_data),
{
    let ts = message_data.0;
    let n = client_data.entries.len();
    let mut i: usize = 0;
    while i < n
        invariant
            n == client_data@.len(),
            i <= n,
            forall|k: int| 0 <= k < i ==> client_data@[k].0 != ts,
        ensures
            i <= n,
            i < n ==> client_data@[i as int].0 == ts,
            forall|k: int| 0 <= k < i ==> client_data@[k].0 != ts,
        decreases n - i,
    {
        if client_data.entries[i].0 == ts {
            break;
        }
        i = i + 1;
    }
    let ghost before = client_data@;
    assert(i == n ==> !has_timestamp(before, ts));
    if i < n {
        client_data.entries.set(i, *message_data);
        assert(client_data@ =~= before.update(i as int, *message_data));
        assert forall|a: int, b: int| 0 <= a < b < client_data@.len() implies client_data@[a].0
            != client_data@[b].0 by {
            assert(before[a].0 != before[b].0);
        }
    } else {
        client_data.entries.push(*message_data);
        assert(client_data@ =~= before.push(*message_data));
        assert forall|a: int, b: int| 0 <= a < b < client_data@.len() implies client_data@[a].0
            != client_data@[b].0 by {
            if b < n {
                assert(before[a].0 != before[b].0);
            } else {
                assert(before[a].0 != ts);
            }
        }
    }
    None
}

/// The mean price over the timestamps `message_data.0..=message_data.1`,
/// rounded toward zero: 0 when the window is empty or holds no price.
pub fn handle_query(message_data: &(i32, i32), client_data: &PriceBook) -> (r: Option<i32>)
    ensures
        r == Some(window_mean(client_data@, message_data.0, message_data.1) as i32),
        i32::MIN <= window_mean(client_data@, message_data.0, message_data.1) <= i32::MAX,
{
    let (lo, hi) = *message_data;
    if lo > hi {
        return Some(0);
    }
    let ghost s = client_data@;
    let n = client_data.entries.len();
    let mut count: u64 = 0;
    let mut sum: i128 = 0;
    let mut i: usize = 0;
    while i < n
        invariant
            n == s.len(),
            s == client_data@,
            i <= n,
            count <= i,
            count == window_count(s.take(i as int), lo, hi),
            sum == window_sum(s.take(i as int), lo, hi),
            -0x80000000 * (count as int) <= sum <= 0x7fffffff * (count as int),
        decreases n - i,
    {
        let (ts, price) = client_data.entries[i];
        assert(s.take(i + 1).drop_last() =~= s.take(i as int));
        assert(s.take(i + 1).last() == s[i as int]);
        if lo <= ts && ts <= hi {
            count = count + 1;
            sum = sum + price as i128;
        }
        i = i + 1;
    }
    assert(s.take(n as int) =~= s);
    if count == 0 {
        return Some(0);
    }
    let ghost c = count as int;
    let mean: i128 = if sum >= 0 {
        let q = (sum as u128) / (count as u128);
        assert(q <= 0x7fffffff) by (nonlinear_arith)
            requires
                q as int == (sum as int) / c,
                0 <= sum as int <= 0x7fffffff * c,
                c > 0,
        ;
        q as i128
    } else {
        let q = ((-sum) as u128) / (count as u128);
        assert(q <= 0x80000000) by (nonlinear_arith)
            requires
                q as int == (-(sum as int)) / c,
                0 <= -(sum as int) <= 0x80000000 * c,
                c > 0,
        ;
        -(q as i128)
    };
    Some(mean as i32)
}

} // verus!
