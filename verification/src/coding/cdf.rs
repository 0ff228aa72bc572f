//! Frequency tables from quantized probabilities.
//!
//! A predictor's probabilities are scaled to integers outside; what is made of those
//! integers here is always a well-formed table.

use super::rans::{valid_cdf, PROB_TOTAL};
use vstd::prelude::*;

verus! {

/// What is left to hand out when every symbol has the frequency 1.
pub const REMAINING_MASS: u32 = 32_512;

/// The table in which all symbols have the same frequency.
pub open spec fn uniform_table() -> Seq<u16> {
    Seq::new(257, |i: int| (i * 128) as u16)
}

/// Entry `i` of a table of rounded values, raised where needed so that every entry is
/// above the one before it. The last value is the total.
pub open spec fn raised(values: Seq<u16>, i: nat) -> int
    decreases i,
{
    if i == 0 {
        values[0] as int
    } else {
        let below = raised(values, (i - 1) as nat) + 1;
        let value = if i < 256 {
            values[i as int] as int
        } else {
            PROB_TOTAL as int
        };
        if value < below {
            below
        } else {
            value
        }
    }
}

/// The rounded values with their fix-ups, where they start at 0 and still end at the
/// total.
pub open spec fn strict_table(values: Seq<u16>) -> Option<Seq<u16>> {
    if values[0] == 0 && raised(values, 256) == PROB_TOTAL {
        Some(Seq::new(257, |i: int| raised(values, i as nat) as u16))
    } else {
        None
    }
}

/// The sum of the first `n` numbers.
pub open spec fn sum_of(s: Seq<u32>, n: nat) -> nat
    decreases n,
{
    if n == 0 {
        0
    } else {
        sum_of(s, (n - 1) as nat) + s[n - 1] as nat
    }
}

/// How often `symbol` is among the first `n` of `ranking`.
pub open spec fn times_ranked(ranking: Seq<u8>, n: nat, symbol: int) -> nat
    decreases n,
{
    if n == 0 {
        0
    } else {
        times_ranked(ranking, (n - 1) as nat, symbol) + if ranking[n - 1] == symbol {
            1nat
        } else {
            0nat
        }
    }
}

/// How many symbols get one more: what the shares leave of the mass, at most all.
pub open spec fn leftover(shares: Seq<u16>) -> nat {
    let shared = sum_of(shares.map_values(|x: u16| x as u32), 256);
    if shared >= REMAINING_MASS {
        0
    } else if REMAINING_MASS - shared > 256 {
        256
    } else {
        (REMAINING_MASS - shared) as nat
    }
}

/// The frequencies: 1 for each symbol, its share, and one more for the first in the
/// ranking.
pub open spec fn frequencies(shares: Seq<u16>, ranking: Seq<u8>) -> Seq<u32> {
    Seq::new(
        256,
        |i: int| (1 + shares[i] + times_ranked(ranking, leftover(shares), i)) as u32,
    )
}

/// The table of proportional shares, or the uniform one where the shares do not add up.
pub open spec fn shared_table(shares: Seq<u16>, ranking: Seq<u8>) -> Seq<u16> {
    let freqs = frequencies(shares, ranking);
    if sum_of(freqs, 256) == PROB_TOTAL {
        Seq::new(257, |i: int| sum_of(freqs, i as nat) as u16)
    } else {
        uniform_table()
    }
}

proof fn lemma_raised_monotone(values: Seq<u16>, i: nat, j: nat)
    requires
        i <= j,
    ensures
        raised(values, i) + (j - i) <= raised(values, j),
    decreases j,
{
    if i < j {
        lemma_raised_monotone(values, i, (j - 1) as nat);
    }
}

proof fn lemma_raised_bound(values: Seq<u16>, i: nat)
    ensures
        0 <= raised(values, i) <= 65535 + i,
    decreases i,
{
    if i > 0 {
        lemma_raised_bound(values, (i - 1) as nat);
    }
}

/// A table with strict fix-ups is well formed.
pub proof fn strict_table_is_valid(values: Seq<u16>)
    requires
        strict_table(values) is Some,
    ensures
        valid_cdf(strict_table(values).unwrap()),
{
    let t = strict_table(values).unwrap();
    assert forall|i: int, j: int| 0 <= i < j <= 256 implies t[i] < t[j] by {
        lemma_raised_monotone(values, i as nat, j as nat);
        lemma_raised_monotone(values, j as nat, 256);
        lemma_raised_bound(values, i as nat);
    }
}

/// The uniform table.
pub fn uniform_cdf() -> (cdf: [u16; 257])
    ensures
        cdf@ == uniform_table(),
        valid_cdf(cdf@),
{
    let mut cdf: [u16; 257] = [0;257];
    let mut i: usize = 0;
    while i < 257
        invariant
            i <= 257,
            forall|k: int| 0 <= k < i ==> cdf@[k] == k * 128,
        decreases 257 - i,
    {
        cdf[i] = (i * 128) as u16;
        i = i + 1;
    }
    assert(cdf@ =~= uniform_table());
    cdf
}

/// Fixes up rounded cumulative values so that every entry is above the one before it;
/// gives none where that goes beyond the total.
pub fn strict_cdf(values: &[u16; 256]) -> (r: Option<[u16; 257]>)
    ensures
        match r {
            Some(cdf) => strict_table(values@) == Some(cdf@) && valid_cdf(cdf@),
            None => strict_table(values@) is None,
        },
{
    if values[0] != 0 {
        return None;
    }
    let mut cdf: [u16; 257] = [0;257];
    let mut last: u32 = 0;
    let mut i: usize = 1;
    while i < 257
        invariant
            1 <= i <= 257,
            values@[0] == 0,
            last == raised(values@, (i - 1) as nat),
            last <= PROB_TOTAL,
            forall|k: int| 0 <= k < i ==> cdf@[k] == raised(values@, k as nat),
        decreases 257 - i,
    {
        let value: u32 = if i < 256 {
            values[i] as u32
        } else {
            PROB_TOTAL
        };
        let next: u32 = if value <= last {
            last + 1
        } else {
            value
        };
        assert(next == raised(values@, i as nat));
        if next > PROB_TOTAL {
            proof {
                lemma_raised_monotone(values@, i as nat, 256);
            }
            return None;
        }
        cdf[i] = next as u16;
        last = next;
        i = i + 1;
    }
    if last != PROB_TOTAL {
        return None;
    }
    proof {
        assert(cdf@ =~= strict_table(values@).unwrap());
        strict_table_is_valid(values@);
    }
    Some(cdf)
}

/// What changing one number does to the sum.
pub proof fn lemma_sum_update(s: Seq<u32>, k: int, v: u32, n: nat)
    requires
        0 <= k < s.len(),
        n <= s.len(),
    ensures
        sum_of(s.update(k, v), n) == sum_of(s, n) + if k < n {
            v - s[k]
        } else {
            0
        },
    decreases n,
{
    if n > 0 {
        lemma_sum_update(s, k, v, (n - 1) as nat);
    }
}

/// No number is larger than the sum.
pub proof fn lemma_count_in_sum(s: Seq<u32>, k: int, n: nat)
    requires
        0 <= k < n <= s.len(),
    ensures
        s[k] <= sum_of(s, n),
    decreases n,
{
    if k < n - 1 {
        lemma_count_in_sum(s, k, (n - 1) as nat);
    }
}

proof fn lemma_sum_monotone(s: Seq<u32>, i: nat, j: nat)
    requires
        i <= j <= s.len(),
        forall|k: int| 0 <= k < s.len() ==> #[trigger] s[k] >= 1,
    ensures
        sum_of(s, i) + (j - i) <= sum_of(s, j),
    decreases j,
{
    if i < j {
        lemma_sum_monotone(s, i, (j - 1) as nat);
    }
}

proof fn lemma_times_ranked(ranking: Seq<u8>, n: nat, symbol: int)
    ensures
        times_ranked(ranking, n, symbol) <= n,
    decreases n,
{
    if n > 0 {
        lemma_times_ranked(ranking, (n - 1) as nat, symbol);
    }
}

/// The table of shares is well formed.
pub proof fn shared_table_is_valid(shares: Seq<u16>, ranking: Seq<u8>)
    ensures
        valid_cdf(shared_table(shares, ranking)),
{
    let freqs = frequencies(shares, ranking);
    if sum_of(freqs, 256) == PROB_TOTAL {
        let t = shared_table(shares, ranking);
        assert forall|k: int| 0 <= k < freqs.len() implies #[trigger] freqs[k] >= 1 by {
            lemma_times_ranked(ranking, leftover(shares), k);
        }
        assert forall|i: int, j: int| 0 <= i < j <= 256 implies t[i] < t[j] by {
            lemma_sum_monotone(freqs, i as nat, j as nat);
            lemma_sum_monotone(freqs, j as nat, 256);
        }
    }
}

/// How many symbols get one more.
fn leftover_of(shares: &[u16; 256]) -> (n: usize)
    ensures
        n == leftover(shares@),
{
    let ghost wide = shares@.map_values(|x: u16| x as u32);
    let mut shared: u32 = 0;
    let mut i: usize = 0;
    while i < 256
        invariant
            i <= 256,
            wide == shares@.map_values(|x: u16| x as u32),
            shared == sum_of(wide, i as nat),
            shared <= i * 65535,
        decreases 256 - i,
    {
        shared = shared + shares[i] as u32;
        i = i + 1;
    }
    if shared >= REMAINING_MASS {
        0
    } else if REMAINING_MASS - shared > 256 {
        256
    } else {
        (REMAINING_MASS - shared) as usize
    }
}

/// The frequencies of proportional shares.
fn shared_frequencies(shares: &[u16; 256], ranking: &[u8; 256]) -> (freqs: [u32; 256])
    ensures
        freqs@ == frequencies(shares@, ranking@),
        forall|k: int| 0 <= k < 256 ==> 1 <= #[trigger] freqs@[k] <= 65792,
{
    let mut freqs: [u32; 256] = [1;256];
    let mut i: usize = 0;
    while i < 256
        invariant
            i <= 256,
            forall|k: int| 0 <= k < i ==> #[trigger] freqs@[k] == 1 + shares@[k],
            forall|k: int| i <= k < 256 ==> #[trigger] freqs@[k] == 1,
        decreases 256 - i,
    {
        freqs[i] = 1 + shares[i] as u32;
        i = i + 1;
    }
    let n: usize = leftover_of(shares);
    let mut j: usize = 0;
    while j < n
        invariant
            j <= n <= 256,
            forall|k: int|
                0 <= k < 256 ==> #[trigger] freqs@[k] == 1 + shares@[k] + times_ranked(
                    ranking@,
                    j as nat,
                    k,
                ),
        decreases n - j,
    {
        let symbol: usize = ranking[j] as usize;
        proof {
            lemma_times_ranked(ranking@, j as nat, symbol as int);
        }
        let more: u32 = freqs[symbol] + 1;
        freqs[symbol] = more;
        j = j + 1;
    }
    proof {
        assert forall|k: int| 0 <= k < 256 implies 1 <= #[trigger] freqs@[k] <= 65792 by {
            lemma_times_ranked(ranking@, n as nat, k);
        }
        assert(freqs@ =~= frequencies(shares@, ranking@));
    }
    freqs
}

/// The table of proportional shares: every symbol has the frequency 1 and its share, and
/// what is left goes to the first in the ranking.
pub fn shared_cdf(shares: &[u16; 256], ranking: &[u8; 256]) -> (cdf: [u16; 257])
    ensures
        cdf@ == shared_table(shares@, ranking@),
        valid_cdf(cdf@),
{
    proof {
        shared_table_is_valid(shares@, ranking@);
    }
    let freqs = shared_frequencies(shares, ranking);
    let mut cdf: [u16; 257] = [0;257];
    let mut total: u32 = 0;
    let mut i: usize = 0;
    while i < 256
        invariant
            i <= 256,
            total == sum_of(freqs@, i as nat),
            total <= i * 65792,
            forall|k: int| 0 <= k < 256 ==> 1 <= #[trigger] freqs@[k] <= 65792,
            total <= PROB_TOTAL ==> forall|k: int|
                0 <= k <= i ==> #[trigger] cdf@[k] == sum_of(freqs@, k as nat),
        decreases 256 - i,
    {
        total = total + freqs[i];
        if total <= PROB_TOTAL {
            cdf[i + 1] = total as u16;
        }
        i = i + 1;
    }
    if total != PROB_TOTAL {
        return uniform_cdf();
    }
    assert(cdf@ =~= shared_table(shares@, ranking@));
    cdf
}

/// Fixing up raises an entry only where it is not above the one before it, and then just
/// above that.
pub proof fn strict_tables_raise_little(values: Seq<u16>, i: nat)
    requires
        strict_table(values) is Some,
        i < 256,
    ensures
        ({
            let t = strict_table(values).unwrap();
            &&& t.len() == 257
            &&& t[0] == 0
            &&& t[256] == 32_768
            &&& t[i as int] >= values[i as int]
            &&& t[i as int] == raised(values, i)
            &&& i > 0 ==> t[i as int] == values[i as int] || t[i as int] == t[i - 1] + 1 && t[i - 1]
                >= values[i as int]
        }),
{
    lemma_raised_monotone(values, i, 256);
    lemma_raised_bound(values, i);
    if i > 0 {
        lemma_raised_monotone(values, (i - 1) as nat, 256);
        lemma_raised_bound(values, (i - 1) as nat);
    }
}

/// Values that rise from 0 and stay below the total are the table as they are.
pub proof fn rising_values_are_kept(values: Seq<u16>, i: nat)
    requires
        values.len() == 256,
        values[0] == 0,
        forall|j: int, k: int| 0 <= j < k < 256 ==> values[j] < values[k],
        values[255] < 32_768,
        i < 256,
    ensures
        strict_table(values) is Some,
        strict_table(values).unwrap()[i as int] == values[i as int],
{
    lemma_raised_same(values, 255);
    lemma_raised_same(values, i);
}

proof fn lemma_raised_same(values: Seq<u16>, i: nat)
    requires
        values.len() == 256,
        forall|j: int, k: int| 0 <= j < k < 256 ==> values[j] < values[k],
        i < 256,
    ensures
        raised(values, i) == values[i as int],
    decreases i,
{
    if i > 0 {
        lemma_raised_same(values, (i - 1) as nat);
        assert(values[i - 1] < values[i as int]);
    }
}

/// The frequencies when only the first `n` of the ranking get one more.
spec fn frequencies_to(shares: Seq<u16>, ranking: Seq<u8>, n: nat) -> Seq<u32> {
    Seq::new(256, |i: int| (1 + shares[i] + times_ranked(ranking, n, i)) as u32)
}

proof fn lemma_frequency_sum(shares: Seq<u16>, ranking: Seq<u8>, n: nat)
    requires
        shares.len() == 256,
        ranking.len() == 256,
        n <= 256,
    ensures
        sum_of(frequencies_to(shares, ranking, n), 256) == 256 + sum_of(
            shares.map_values(|x: u16| x as u32),
            256,
        ) + n,
    decreases n,
{
    let now = frequencies_to(shares, ranking, n);
    if n == 0 {
        lemma_plain_sum(shares, ranking, 256);
    } else {
        let before = frequencies_to(shares, ranking, (n - 1) as nat);
        let k = ranking[n - 1] as int;
        lemma_frequency_sum(shares, ranking, (n - 1) as nat);
        lemma_times_ranked(ranking, (n - 1) as nat, k);
        lemma_sum_update(before, k, (before[k] + 1) as u32, 256);
        assert(now =~= before.update(k, (before[k] + 1) as u32));
    }
}

proof fn lemma_plain_sum(shares: Seq<u16>, ranking: Seq<u8>, n: nat)
    requires
        shares.len() == 256,
        n <= 256,
    ensures
        sum_of(frequencies_to(shares, ranking, 0), n) == n + sum_of(
            shares.map_values(|x: u16| x as u32),
            n,
        ),
    decreases n,
{
    if n > 0 {
        lemma_plain_sum(shares, ranking, (n - 1) as nat);
    }
}

/// Shares that leave no more than one part for each symbol are kept: every symbol has 1, its
/// share, and one more for each of its places among the first of the ranking, as many as are
/// left of the mass.
pub proof fn shares_are_kept(shares: Seq<u16>, ranking: Seq<u8>, i: int)
    requires
        shares.len() == 256,
        ranking.len() == 256,
        32_256 <= sum_of(shares.map_values(|x: u16| x as u32), 256) <= 32_512,
        0 <= i < 256,
    ensures
        ({
            let left = (32_512 - sum_of(shares.map_values(|x: u16| x as u32), 256)) as nat;
            shared_table(shares, ranking)[i + 1] - shared_table(shares, ranking)[i] == 1 + shares[i]
                + times_ranked(ranking, left, i)
        }),
        shared_table(shares, ranking)[0] == 0,
{
    let left = leftover(shares);
    let freqs = frequencies(shares, ranking);
    lemma_frequency_sum(shares, ranking, left);
    assert(freqs =~= frequencies_to(shares, ranking, left));
    assert forall|k: int| 0 <= k < freqs.len() implies #[trigger] freqs[k] >= 1 by {
        lemma_times_ranked(ranking, left, k);
    }
    lemma_times_ranked(ranking, left, i);
    lemma_sum_monotone(freqs, i as nat, 256);
    lemma_sum_monotone(freqs, (i + 1) as nat, 256);
}

/// In the uniform table every symbol has the same share.
pub proof fn uniform_shares_are_equal(i: int)
    requires
        0 <= i < 256,
    ensures
        uniform_table()[i + 1] - uniform_table()[i] == 128,
        uniform_table()[0] == 0,
{
}

/// What makes a table well formed: 257 entries from 0 to 32768, each above the one before.
pub proof fn well_formed_tables_rise(cdf: Seq<u16>)
    ensures
        valid_cdf(cdf) <==> cdf.len() == 257 && cdf[0] == 0 && cdf[256] == 32_768 && forall|i: int|
            0 <= i < 256 ==> #[trigger] cdf[i] < cdf[i + 1],
{
    if cdf.len() == 257 && cdf[0] == 0 && cdf[256] == 32_768 && (forall|i: int|
        0 <= i < 256 ==> #[trigger] cdf[i] < cdf[i + 1]) {
        assert forall|i: int, j: int| 0 <= i < j <= 256 implies cdf[i] < cdf[j] by {
            lemma_rising(cdf, i, j);
        }
    }
}

proof fn lemma_rising(cdf: Seq<u16>, i: int, j: int)
    requires
        0 <= i < j <= 256,
        forall|k: int| 0 <= k < 256 ==> #[trigger] cdf[k] < cdf[k + 1],
    ensures
        cdf[i] < cdf[j],
    decreases j - i,
{
    if i + 1 < j {
        lemma_rising(cdf, i, j - 1);
        assert(cdf[j - 1] < cdf[j - 1 + 1]);
    } else {
        assert(cdf[i] < cdf[i + 1]);
    }
}

/// A sum is that of all numbers before a place.
pub proof fn sums_add_up(s: Seq<u32>, n: nat)
    ensures
        sum_of(s, 0) == 0,
        sum_of(s, n + 1) == sum_of(s, n) + s[n as int],
{
}

/// What [`strict_cdf`], [`shared_cdf`] and [`uniform_cdf`] give: the values where they rise
/// from 0, the shares where they leave no more than one part for each symbol, and equal parts.
pub proof fn tables_follow_what_is_given(
    values: &[u16; 256],
    strict: Option<[u16; 257]>,
    shares: &[u16; 256],
    ranking: &[u8; 256],
    shared: [u16; 257],
    uniform: [u16; 257],
    i: int,
)
    requires
        call_ensures(strict_cdf, (values,), strict),
        call_ensures(shared_cdf, (shares, ranking), shared),
        call_ensures(uniform_cdf, (), uniform),
        0 <= i < 256,
    ensures
        values@[0] == 0 && values@[255] < 32_768 && (forall|j: int, k: int|
            0 <= j < k < 256 ==> values@[j] < values@[k]) ==> strict is Some && strict->0@[i]
            == values@[i],
        strict is Some ==> strict->0@[i] >= values@[i] && strict->0@[256] == 32_768,
        32_256 <= sum_of(shares@.map_values(|x: u16| x as u32), 256) <= 32_512 ==> shared@[i + 1]
            - shared@[i] == 1 + shares@[i] + times_ranked(
            ranking@,
            (32_512 - sum_of(shares@.map_values(|x: u16| x as u32), 256)) as nat,
            i,
        ),
        uniform@[i + 1] - uniform@[i] == 128,
{
    if values@[0] == 0 && values@[255] < 32_768 && (forall|j: int, k: int|
        0 <= j < k < 256 ==> values@[j] < values@[k]) {
        rising_values_are_kept(values@, i as nat);
    }
    if strict is Some {
        strict_tables_raise_little(values@, i as nat);
    }
    if 32_256 <= sum_of(shares@.map_values(|x: u16| x as u32), 256) <= 32_512 {
        shares_are_kept(shares@, ranking@, i);
    }
    uniform_shares_are_equal(i);
}

/// A symbol gets one more part for each place it has among the first of the ranking.
pub proof fn rankings_are_counted(ranking: Seq<u8>, n: nat, symbol: int)
    ensures
        times_ranked(ranking, 0, symbol) == 0,
        times_ranked(ranking, n + 1, symbol) == times_ranked(ranking, n, symbol)
            + if ranking[n as int] == symbol {
            1int
        } else {
            0
        },
{
}

} // verus!
