use vstd::prelude::*;
use crate::huffman::{HuffmanTable, lengths_fit, first_code, count_before, code_space};
use vstd::set_lib::{set_int_range, lemma_int_range, lemma_len_subset};

verus! {

/// The sum of the first `n` values.
pub open spec fn sum_of(s: Seq<u64>, n: nat) -> int
    decreases n,
{
    if n == 0 {
        0
    } else {
        sum_of(s, (n - 1) as nat) + s[n - 1]
    }
}

pub proof fn lemma_sum_update(s: Seq<u64>, n: nat, i: int, v: u64)
    requires
        0 <= i < s.len(),
        n <= s.len(),
    ensures
        sum_of(s.update(i, v), n) == sum_of(s, n) + if i < n { v - s[i] } else { 0 },
    decreases n,
{
    if n > 0 {
        lemma_sum_update(s, (n - 1) as nat, i, v);
    }
}

pub proof fn lemma_sum_bound(s: Seq<u64>, n: nat, i: int)
    requires
        0 <= i < n <= s.len(),
    ensures
        s[i] <= sum_of(s, n),
        0 <= sum_of(s, n),
    decreases n,
{
    if i < n - 1 {
        lemma_sum_bound(s, (n - 1) as nat, i);
    } else {
        lemma_sum_nonneg(s, (n - 1) as nat);
    }
}

pub proof fn lemma_sum_nonneg(s: Seq<u64>, n: nat)
    requires
        n <= s.len(),
    ensures
        0 <= sum_of(s, n),
    decreases n,
{
    if n > 0 {
        lemma_sum_nonneg(s, (n - 1) as nat);
    }
}

pub proof fn lemma_sum_zeros(s: Seq<u64>, n: nat)
    requires
        n <= s.len(),
        forall|k: int| 0 <= k < n ==> #[trigger] s[k] == 0,
    ensures
        sum_of(s, n) == 0,
    decreases n,
{
    if n > 0 {
        lemma_sum_zeros(s, (n - 1) as nat);
    }
}

/// How many of the first `n` values are not zero.
pub open spec fn nonzero_count(s: Seq<u64>, n: nat) -> nat
    decreases n,
{
    if n == 0 {
        0
    } else {
        nonzero_count(s, (n - 1) as nat) + if s[n - 1] > 0 {
            1nat
        } else {
            0nat
        }
    }
}

pub proof fn lemma_nonzero_count_update(s: Seq<u64>, n: nat, i: int, v: u64)
    requires
        0 <= i < s.len(),
        n <= s.len(),
    ensures
        nonzero_count(s.update(i, v), n) == nonzero_count(s, n) - (if i < n && s[i] > 0 {
            1int
        } else {
            0int
        }) + (if i < n && v > 0 {
            1int
        } else {
            0int
        }),
    decreases n,
{
    if n > 0 {
        lemma_nonzero_count_update(s, (n - 1) as nat, i, v);
    }
}

pub proof fn lemma_nonzero_count_zero(s: Seq<u64>, n: nat)
    requires
        n <= s.len(),
        nonzero_count(s, n) == 0,
    ensures
        forall|k: int| 0 <= k < n ==> #[trigger] s[k] == 0,
    decreases n,
{
    if n > 0 {
        lemma_nonzero_count_zero(s, (n - 1) as nat);
    }
}

pub proof fn lemma_nonzero_count_le(s: Seq<u64>, n: nat)
    requires
        n <= s.len(),
    ensures
        nonzero_count(s, n) <= n,
    decreases n,
{
    if n > 0 {
        lemma_nonzero_count_le(s, (n - 1) as nat);
    }
}

/// A sum with one value that is not zero is that value.
pub proof fn lemma_sum_single(s: Seq<u64>, n: nat, i: int)
    requires
        0 <= i < n <= s.len(),
        forall|k: int| 0 <= k < n && k != i ==> #[trigger] s[k] == 0,
    ensures
        sum_of(s, n) == s[i],
    decreases n,
{
    if n - 1 > i {
        lemma_sum_single(s, (n - 1) as nat, i);
    } else {
        lemma_sum_zeros(s, (n - 1) as nat);
    }
}

/// Two values of a sum of non-negative values are at most the sum.
pub proof fn lemma_sum_two(s: Seq<u64>, n: nat, i: int, j: int)
    requires
        0 <= i < n <= s.len(),
        0 <= j < n,
        i != j,
    ensures
        s[i] + s[j] <= sum_of(s, n),
    decreases n,
{
    if i == n - 1 {
        lemma_sum_bound(s, (n - 1) as nat, j);
    } else if j == n - 1 {
        lemma_sum_bound(s, (n - 1) as nat, i);
    } else {
        lemma_sum_two(s, (n - 1) as nat, i, j);
    }
}

/// Whether the code lengths fit, computed.
pub fn check_lengths_fit(length: &[u8; 16]) -> (b: bool)
    ensures
        b == lengths_fit(length@),
{
    let mut code: u64 = 0;
    let mut space: u64 = 2;
    proof {
        reveal_with_fuel(code_space, 2);
    }
    let mut k: usize = 0;
    while k < 16
        invariant
            k <= 16,
            k == 16 ==> first_code(length@, 15) + length@[15] < code_space(16),
            code as int == first_code(length@, k as nat),
            space as int == code_space((k + 1) as nat),
            space <= 131072,
            code <= space,
            forall|i: int| 0 <= i < k && i < 15 ==> #[trigger] first_code(length@, i as nat) + length@[i] <= code_space((i + 1) as nat),
        decreases 16 - k,
    {
        let n = length[k] as u64;
        let ghost fc = first_code(length@, k as nat);
        if k < 15 {
            if code + n > space {
                return false;
            }
        } else {
            if code + n >= space {
                return false;
            }
        }
        code = 2 * (code + n);
        space = 2 * space;
        proof {
            assert(code_space((k + 2) as nat) == 2 * code_space((k + 1) as nat));
        }
        k += 1;
        proof {
            assert(code_space((k + 1) as nat) == 2 * code_space(k as nat));
            lemma_space_le(k + 1);
        }
    }
    true
}

proof fn lemma_space_le(k: int)
    requires
        1 <= k <= 17,
    ensures
        code_space(k as nat) <= 131072,
{
    reveal_with_fuel(code_space, 18);
    if k == 1 {} else if k == 2 {} else if k == 3 {} else if k == 4 {} else if k == 5 {}
    else if k == 6 {} else if k == 7 {} else if k == 8 {} else if k == 9 {} else if k == 10 {}
    else if k == 11 {} else if k == 12 {} else if k == 13 {} else if k == 14 {} else if k == 15 {}
    else if k == 16 {} else {}
}

/// The number of codes of all lengths, computed.
fn count_codes(length: &[u8; 16]) -> (n: usize)
    ensures
        n == count_before(length@, 16),
{
    let mut n: usize = 0;
    let mut k: usize = 0;
    while k < 16
        invariant
            k <= 16,
            n == count_before(length@, k as nat),
            n <= 255 * k,
        decreases 16 - k,
    {
        n += length[k] as usize;
        k += 1;
    }
    n
}

/// The merge state of Annex K.2: the weights of the branches (zero for
/// symbols hung below another), the code size of every symbol, and the
/// next symbol of each branch (-1 at its end).
pub type MergeState = (Seq<u64>, Seq<usize>, Seq<i32>);

/// The last of the smallest nonzero weights at positions `k..257`, given
/// the best so far `c` of weight `v`; 257 when there is none.
pub open spec fn smallest(w: Seq<u64>, k: nat, c: int, v: u64) -> int
    decreases 257 - k,
{
    if k >= 257 {
        c
    } else if w[k as int] > 0 && w[k as int] <= v {
        smallest(w, k + 1, k as int, w[k as int])
    } else {
        smallest(w, k + 1, c, v)
    }
}

/// Like `smallest`, passing over position `c1`.
pub open spec fn next_smallest(w: Seq<u64>, c1: int, k: nat, c: int, v: u64) -> int
    decreases 257 - k,
{
    if k >= 257 {
        c
    } else if w[k as int] > 0 && w[k as int] <= v && k != c1 {
        next_smallest(w, c1, k + 1, k as int, w[k as int])
    } else {
        next_smallest(w, c1, k + 1, c, v)
    }
}

/// Walks a branch from `a` (at most 257 steps), giving every later symbol
/// one more bit; the code sizes after, and the last symbol of the branch.
pub open spec fn walk(cs: Seq<usize>, others: Seq<i32>, a: int, steps: nat) -> (Seq<usize>, int)
    decreases 257 - steps,
{
    if steps >= 257 || others[a] < 0 {
        (cs, a)
    } else {
        let b = others[a] as int;
        walk(cs.update(b, (cs[b] + 1) as usize), others, b, steps + 1)
    }
}

/// Merges the branches of `c1` and `c2`: the weight of `c2` moves to `c1`,
/// every symbol of both branches gets one more bit, and the branch of `c2`
/// is hung below the end of the branch of `c1`.
pub open spec fn merge(st: MergeState, c1: int, c2: int) -> MergeState {
    let w = st.0;
    let w1 = w.update(c1, (w[c1] + w[c2]) as u64).update(c2, 0);
    let r1 = walk(st.1.update(c1, (st.1[c1] + 1) as usize), st.2, c1, 0);
    let o1 = st.2.update(r1.1, c2 as i32);
    let r2 = walk(r1.0.update(c2, (r1.0[c2] + 1) as usize), o1, c2, 0);
    (w1, r2.0, o1)
}

/// Merges the two lightest branches until one is left (at most 257 times).
pub open spec fn merged(st: MergeState, merges: nat) -> MergeState
    decreases 257 - merges,
{
    if merges >= 257 {
        st
    } else {
        let c1 = smallest(st.0, 0, 257, u64::MAX);
        let c2 = next_smallest(st.0, c1, 0, 257, u64::MAX);
        if c1 == 257 || c2 == 257 {
            st
        } else {
            merged(merge(st, c1, c2), merges + 1)
        }
    }
}

/// The number of codes of each size among the symbols `j..257`, added to
/// `nc`; `None` when a code is longer than 32 bits.
pub open spec fn count_sizes(cs: Seq<usize>, j: nat, nc: Seq<u64>) -> Option<Seq<u64>>
    decreases 257 - j,
{
    if j >= 257 {
        Some(nc)
    } else if cs[j as int] > 32 {
        None
    } else if cs[j as int] > 0 {
        let size = cs[j as int] as int;
        count_sizes(cs, j + 1, nc.update(size, (nc[size] + 1) as u64))
    } else {
        count_sizes(cs, j + 1, nc)
    }
}

/// The largest `j` at most the given one with a code of size `j`, or 0.
pub open spec fn down_to_used(nc: Seq<u64>, j: nat) -> nat
    decreases j,
{
    if j > 0 && nc[j as int] == 0 {
        down_to_used(nc, (j - 1) as nat)
    } else {
        j
    }
}

pub proof fn lemma_down_to_used(nc: Seq<u64>, j: nat)
    ensures
        down_to_used(nc, j) <= j,
    decreases j,
{
    if j > 0 && nc[j as int] == 0 {
        lemma_down_to_used(nc, (j - 1) as nat);
    }
}

/// Removes the codes of size `i` (17..=32) two at a time: the pair becomes
/// one code of size `i - 1` and a code of the longest shorter size becomes
/// two one bit longer; `None` when that cannot be done.
pub open spec fn shorten_at(nc: Seq<u64>, i: nat) -> Option<Seq<u64>>
    decreases nc[i as int],
{
    if i < 2 || i >= nc.len() || nc[i as int] == 0 {
        Some(nc)
    } else if nc[i as int] < 2 {
        None
    } else {
        let j = down_to_used(nc, (i - 2) as nat) as int;
        if nc[j] == 0 {
            None
        } else {
            proof {
                lemma_down_to_used(nc, (i - 2) as nat);
            }
            let n1 = nc.update(i as int, (nc[i as int] - 2) as u64);
            let n2 = n1.update(i - 1, (n1[i - 1] + 1) as u64);
            let n3 = n2.update(j + 1, (n2[j + 1] + 2) as u64);
            let n4 = n3.update(j, (n3[j] - 1) as u64);
            shorten_at(n4, i)
        }
    }
}

/// Shortens the codes of sizes `i` down to 17.
pub open spec fn shorten(nc: Seq<u64>, i: nat) -> Option<Seq<u64>>
    decreases i,
{
    if i <= 16 {
        Some(nc)
    } else {
        match shorten_at(nc, i) {
            Some(n) => shorten(n, (i - 1) as nat),
            None => None,
        }
    }
}

/// The symbols below 256 with codes, by code size and then by value (at
/// most 256), after `vals`, from size `size` and symbol `j` on.
pub open spec fn list_symbols(cs: Seq<usize>, size: nat, j: nat, vals: Seq<u8>) -> Seq<u8>
    decreases 33 - size, 256 - j,
{
    if size > 32 {
        vals
    } else if j >= 256 {
        list_symbols(cs, size + 1, 0, vals)
    } else if cs[j as int] == size && vals.len() < 256 {
        list_symbols(cs, size, j + 1, vals.push(j as u8))
    } else {
        list_symbols(cs, size, j + 1, vals)
    }
}

/// Every count of codes of 1..=16 bits fits in a byte.
pub open spec fn counts_fit_byte(nc: Seq<u64>) -> bool {
    forall|k: int| 1 <= k <= 16 ==> #[trigger] nc[k] <= 255
}

/// The code lengths 1..=16 of the code counts.
pub open spec fn lengths_of(nc: Seq<u64>) -> Seq<u8> {
    Seq::new(16, |k: int| nc[k + 1] as u8)
}

/// Every symbol its own branch, of its frequency, with no code yet.
pub open spec fn merge_start(freq: Seq<u64>) -> MergeState {
    (Seq::new(257, |k: int| freq[k]), Seq::new(257, |k: int| 0usize), Seq::new(257, |k: int| -1i32))
}

/// The code size of every symbol after the merging.
pub open spec fn code_sizes(freq: Seq<u64>) -> Seq<usize> {
    merged(merge_start(freq), 0).1
}

/// The table that JPEG Annex K.2 builds for the frequencies `freq` (the
/// reserved symbol 256 included): its code lengths and its symbols, or
/// `None` when a step of the construction cannot be carried out.
#[verifier::opaque]
pub open spec fn optimized_code(freq: Seq<u64>) -> Option<(Seq<u8>, Seq<u8>)> {
    let sizes = code_sizes(freq);
    match count_sizes(sizes, 0, Seq::new(33, |k: int| 0u64)) {
        None => None,
        Some(nc) => match shorten(nc, 32) {
            None => None,
            Some(nc2) => {
                let i = down_to_used(nc2, 16) as int;
                if nc2[i] == 0 {
                    None
                } else {
                    let nc3 = nc2.update(i, (nc2[i] - 1) as u64);
                    let len = lengths_of(nc3);
                    let vals = list_symbols(sizes, 1, 0, Seq::empty());
                    if !counts_fit_byte(nc3) {
                        None
                    } else if !lengths_fit(len) || count_before(len, 16) > vals.len() {
                        None
                    } else {
                        Some((len, vals))
                    }
                }
            },
        },
    }
}

/// Creates a table whose codes are optimal for the given symbol
/// frequencies (JPEG Annex K.2): symbols are merged by increasing
/// frequency, code lengths over 16 bits are shortened, and the reserved
/// symbol 256 (which should have frequency 1) keeps the all-ones code out
/// of use. `None` when the merging produces code lengths over 32 bits or
/// more than 255 codes of one length, or lengths whose codes do not fit.
pub fn new_optimized(freq: [u64; 257]) -> (r: Option<HuffmanTable>)
    requires
        forall|k: int| 0 <= k < 257 ==> #[trigger] freq[k] <= 0xFFFF_FFFF_FFFF,
    ensures
        r matches Some(t) ==> lengths_fit(t.lengths()) && count_before(t.lengths(), 16) <= t.symbols().len() <= 256,
        r matches Some(t) ==> forall|i: int| 0 <= i < t.symbols().len() ==> freq[#[trigger] t.symbols()[i] as int] > 0,
        r matches Some(t) ==> (freq[256] > 0 ==> forall|s: int| 0 <= s < 256 && #[trigger] freq[s] > 0 ==> t.symbols().contains(s as u8)),
        r is Some <==> optimized_code(freq@) is Some,
        r matches Some(t) ==> (t.lengths(), t.symbols()) == optimized_code(freq@).unwrap(),
{
    let mut weight = [0u64; 257];
    proof {
        lemma_sum_zeros(weight@, 257);
    }
    let mut i: usize = 0;
    while i < 257
        invariant
            i <= 257,
            forall|k: int| 0 <= k < i ==> #[trigger] weight[k] == freq[k],
            forall|k: int| i <= k < 257 ==> #[trigger] weight[k] == 0,
            sum_of(weight@, 257) <= i * 0x1_0000_0000_0000,
            forall|k: int| 0 <= k < 257 ==> #[trigger] freq[k] <= 0xFFFF_FFFF_FFFF,
        decreases 257 - i,
    {
        proof {
            lemma_sum_update(weight@, 257, i as int, freq[i as int]);
        }
        weight[i] = freq[i];
        i += 1;
    }

    let ghost w_init = weight@;
    let mut code_size = [0usize; 257];
    let mut others = [-1i32; 257];
    let ghost start: MergeState = (weight@, code_size@, others@);
    proof {
        lemma_nonzero_count_le(weight@, 257);
        assert(start.0 =~= Seq::new(257, |k: int| freq@[k]));
        assert(start.1 =~= Seq::new(257, |k: int| 0usize));
        assert(start.2 =~= Seq::new(257, |k: int| -1i32));
        assert(start == merge_start(freq@));
    }

    let mut merges: usize = 0;
    while merges < 257
        invariant
            merges <= 257,
            w_init.len() == 257,
            forall|k: int| 0 <= k < 257 ==> #[trigger] w_init[k] == freq[k],
            sum_of(weight@, 257) == sum_of(w_init, 257),
            sum_of(weight@, 257) <= 257 * 0x1_0000_0000_0000,
            nonzero_count(weight@, 257) + merges <= 257,
            merges == 257 ==> forall|k: int| 0 <= k < 257 ==> #[trigger] weight@[k] == 0,
            forall|k: int| 0 <= k < 257 ==> #[trigger] weight[k] > 0 ==> freq[k] > 0,
            forall|k: int| 0 <= k < 257 ==> #[trigger] code_size[k] == 0 ==> weight[k] == w_init[k],
            forall|k: int| 0 <= k < 257 ==> #[trigger] code_size[k] <= 516 * merges,
            forall|k: int| 0 <= k < 257 ==> -1 <= #[trigger] others[k] < 257,
            forall|k: int| 0 <= k < 257 ==> #[trigger] others[k] >= 0 ==> freq[others[k] as int] > 0,
            forall|k: int| 0 <= k < 257 ==> #[trigger] code_size[k] > 0 ==> freq[k] > 0,
            merged(start, 0) == merged((weight@, code_size@, others@), merges as nat),
        ensures
            merged(start, 0) == (weight@, code_size@, others@),
            forall|k: int, m: int| 0 <= k < 257 && 0 <= m < 257 && #[trigger] weight[k] > 0 && #[trigger] weight[m] > 0 ==> k == m,
            w_init.len() == 257,
            forall|k: int| 0 <= k < 257 ==> #[trigger] w_init[k] == freq[k],
            sum_of(weight@, 257) == sum_of(w_init, 257),
            forall|k: int| 0 <= k < 257 ==> #[trigger] code_size[k] == 0 ==> weight[k] == w_init[k],
            forall|k: int| 0 <= k < 257 ==> #[trigger] code_size[k] > 0 ==> freq[k] > 0,
        decreases 257 - merges,
    {
        // Find the smallest nonzero weight, the last one among equals.
        let mut c1: usize = 257;
        let mut v: u64 = u64::MAX;
        let mut k: usize = 0;
        while k < 257
            invariant
                k <= 257,
                c1 == 257 || (c1 < 257 && weight[c1 as int] > 0),
                c1 == 257 ==> v == u64::MAX,
                c1 == 257 ==> forall|m: int| 0 <= m < k ==> #[trigger] weight[m] == 0,
                smallest(weight@, 0, 257, u64::MAX) == smallest(weight@, k as nat, c1 as int, v),
            decreases 257 - k,
        {
            if weight[k] > 0 && weight[k] <= v {
                v = weight[k];
                c1 = k;
            }
            k += 1;
        }
        // Find the next smallest nonzero weight.
        let mut c2: usize = 257;
        v = u64::MAX;
        k = 0;
        while k < 257
            invariant
                k <= 257,
                c2 == 257 || (c2 < 257 && weight[c2 as int] > 0 && c2 != c1),
                c2 == 257 ==> v == u64::MAX,
                c2 == 257 ==> forall|m: int| 0 <= m < k && m != c1 ==> #[trigger] weight[m] == 0,
                next_smallest(weight@, c1 as int, 0, 257, u64::MAX) == next_smallest(weight@, c1 as int, k as nat, c2 as int, v),
            decreases 257 - k,
        {
            if weight[k] > 0 && weight[k] <= v && k != c1 {
                v = weight[k];
                c2 = k;
            }
            k += 1;
        }
        if c1 == 257 || c2 == 257 {
            break;
        }
        let ghost w0 = weight@;
        let ghost st0: MergeState = (weight@, code_size@, others@);
        let ghost w1 = w0.update(c1 as int, (w0[c1 as int] + w0[c2 as int]) as u64);
        proof {
            lemma_sum_bound(w0, 257, c1 as int);
            lemma_sum_bound(w0, 257, c2 as int);
            lemma_sum_update(w0, 257, c1 as int, (w0[c1 as int] + w0[c2 as int]) as u64);
            lemma_sum_update(w1, 257, c2 as int, 0);
            lemma_sum_nonneg(w1.update(c2 as int, 0), 257);
            lemma_nonzero_count_update(w0, 257, c1 as int, (w0[c1 as int] + w0[c2 as int]) as u64);
            lemma_nonzero_count_update(w1, 257, c2 as int, 0);
        }
        // Merge the two branches.
        weight[c1] = weight[c1] + weight[c2];
        weight[c2] = 0;
        assert(weight@ =~= w1.update(c2 as int, 0));

        // Every symbol in the branch of c1 gets one bit longer.
        let mut a = c1;
        code_size[a] += 1;
        let ghost cs1 = code_size@;
        let mut steps: usize = 0;
        while others[a] >= 0 && steps < 257
            invariant
                merges < 257,
                a < 257,
                c2 < 257,
                steps <= 257,
                freq[a as int] > 0,
                weight[c2 as int] == 0,
                forall|k: int| 0 <= k < 257 ==> -1 <= #[trigger] others[k] < 257,
                forall|k: int| 0 <= k < 257 ==> #[trigger] others[k] >= 0 ==> freq[others[k] as int] > 0,
                forall|k: int| 0 <= k < 257 ==> #[trigger] code_size[k] <= 516 * merges + steps + 1,
                forall|k: int| 0 <= k < 257 ==> #[trigger] code_size[k] > 0 ==> freq[k] > 0,
                forall|k: int| 0 <= k < 257 && k != c2 ==> #[trigger] code_size[k] == 0 ==> weight[k] == w_init[k],
                others@ == st0.2,
                walk(cs1, st0.2, c1 as int, 0) == walk(code_size@, others@, a as int, steps as nat),
            decreases 257 - steps,
        {
            a = others[a] as usize;
            code_size[a] += 1;
            steps += 1;
        }
        // Hang the branch of c2 below the branch of c1.
        let ghost cs_walked = code_size@;
        let ghost a_end = a as int;
        others[a] = c2 as i32;
        let ghost o1 = others@;
        let mut b = c2;
        code_size[b] += 1;
        let ghost cs2 = code_size@;
        steps = 0;
        while others[b] >= 0 && steps < 257
            invariant
                merges < 257,
                b < 257,
                steps <= 257,
                freq[b as int] > 0,
                forall|k: int| 0 <= k < 257 ==> -1 <= #[trigger] others[k] < 257,
                forall|k: int| 0 <= k < 257 ==> #[trigger] others[k] >= 0 ==> freq[others[k] as int] > 0,
                forall|k: int| 0 <= k < 257 ==> #[trigger] code_size[k] <= 516 * merges + 258 + steps + 1,
                forall|k: int| 0 <= k < 257 ==> #[trigger] code_size[k] > 0 ==> freq[k] > 0,
                forall|k: int| 0 <= k < 257 ==> #[trigger] code_size[k] == 0 ==> weight[k] == w_init[k],
                others@ == o1,
                walk(cs2, o1, c2 as int, 0) == walk(code_size@, others@, b as int, steps as nat),
            decreases 257 - steps,
        {
            b = others[b] as usize;
            code_size[b] += 1;
            steps += 1;
        }
        proof {
            assert(walk(cs1, st0.2, c1 as int, 0) == (cs_walked, a_end));
            assert(cs1 == st0.1.update(c1 as int, (st0.1[c1 as int] + 1) as usize));
            assert(o1 == st0.2.update(a_end, c2 as i32));
            assert(cs2 == cs_walked.update(c2 as int, (cs_walked[c2 as int] + 1) as usize));
            assert((weight@, code_size@, others@) == merge(st0, c1 as int, c2 as int));
            assert(merged(st0, merges as nat) == merged(merge(st0, c1 as int, c2 as int), (merges + 1) as nat));
        }
        merges += 1;
        proof {
            if merges == 257 {
                lemma_nonzero_count_zero(weight@, 257);
            }
        }
    }

    // Every symbol that occurs gets a code, as long as the reserved one occurs too.
    proof {
        assert forall|t: int| 0 <= t < 256 && #[trigger] freq[t] > 0 && freq[256] > 0 implies code_size[t] > 0 by {
            if code_size[t] == 0 {
                assert(weight[t] > 0);
                assert forall|m: int| 0 <= m < 257 && m != t implies #[trigger] weight@[m] == 0 by {
                    if weight[m] > 0 {
                        assert(weight[t] > 0 && weight[m] > 0);
                    }
                }
                lemma_sum_single(weight@, 257, t);
                lemma_sum_two(w_init, 257, t, 256);
            }
        }
    }

    // Count the codes of each length.
    let mut num_codes = [0u64; 33];
    proof {
        lemma_sum_zeros(num_codes@, 33);
        assert(num_codes@ =~= Seq::new(33, |k: int| 0u64));
    }
    let mut j: usize = 0;
    while j < 257
        invariant
            j <= 257,
            sum_of(num_codes@, 33) <= j,
            forall|k: int| 0 <= k < 33 ==> #[trigger] num_codes[k] <= j,
            num_codes[0] == 0,
            forall|m: int| 0 <= m < j ==> #[trigger] code_size[m] <= 32,
            num_codes@.len() == 33,
            count_sizes(code_size@, 0, Seq::new(33, |k: int| 0u64)) == count_sizes(code_size@, j as nat, num_codes@),
            code_size@ == code_sizes(freq@),
        decreases 257 - j,
    {
        let size = code_size[j];
        if size > 32 {
            {
            reveal(optimized_code);
            return None;
        }
        }
        if size > 0 {
            proof {
                lemma_sum_update(num_codes@, 33, size as int, (num_codes[size as int] + 1) as u64);
            }
            num_codes[size] += 1;
        }
        j += 1;
    }

    // Shorten the codes longer than 16 bits: two codes of length `i` become
    // one of length `i - 1`, and one shorter code becomes two one bit longer.
    let ghost nc_counted = num_codes@;
    assert(count_sizes(code_size@, 0, Seq::new(33, |k: int| 0u64)) == Some(nc_counted));
    let mut i: usize = 32;
    while i > 16
        invariant
            16 <= i <= 32,
            sum_of(num_codes@, 33) <= 257,
            num_codes@.len() == 33,
            shorten(nc_counted, 32) == shorten(num_codes@, i as nat),
            code_size@ == code_sizes(freq@),
            count_sizes(code_size@, 0, Seq::new(33, |k: int| 0u64)) == Some(nc_counted),
        decreases i,
    {
        while num_codes[i] > 0
            invariant
                17 <= i <= 32,
                sum_of(num_codes@, 33) <= 257,
                num_codes@.len() == 33,
                shorten(nc_counted, 32) == match shorten_at(num_codes@, i as nat) {
                    Some(n) => shorten(n, (i - 1) as nat),
                    None => None,
                },
                code_size@ == code_sizes(freq@),
                count_sizes(code_size@, 0, Seq::new(33, |k: int| 0u64)) == Some(nc_counted),
            decreases num_codes[i as int],
        {
            if num_codes[i] < 2 {
                {
            reveal(optimized_code);
            return None;
        }
            }
            let mut j = i - 2;
            while j > 0 && num_codes[j] == 0
                invariant
                    j <= i - 2,
                    i <= 32,
                    down_to_used(num_codes@, (i - 2) as nat) == down_to_used(num_codes@, j as nat),
                decreases j,
            {
                j -= 1;
            }
            if num_codes[j] == 0 {
                {
            reveal(optimized_code);
            return None;
        }
            }
            let ghost n0 = num_codes@;
            let ghost n1 = n0.update(i as int, (n0[i as int] - 2) as u64);
            proof {
                lemma_sum_update(n0, 33, i as int, (n0[i as int] - 2) as u64);
                lemma_sum_bound(n1, 33, (i - 1) as int);
            }
            num_codes[i] -= 2;
            let ghost n2 = n1.update(i - 1, (n1[i - 1] + 1) as u64);
            proof {
                lemma_sum_update(n1, 33, i - 1, (n1[i - 1] + 1) as u64);
                lemma_sum_bound(n2, 33, j + 1);
            }
            num_codes[i - 1] += 1;
            let ghost n3 = n2.update(j + 1, (n2[j + 1] + 2) as u64);
            proof {
                lemma_sum_update(n2, 33, j + 1, (n2[j + 1] + 2) as u64);
                lemma_sum_update(n3, 33, j as int, (n3[j as int] - 1) as u64);
            }
            num_codes[j + 1] += 2;
            num_codes[j] -= 1;
            proof {
                assert(down_to_used(n0, (i - 2) as nat) == j);
                assert(num_codes@ == n3.update(j as int, (n3[j as int] - 1) as u64));
                assert(shorten_at(n0, i as nat) == shorten_at(num_codes@, i as nat));
            }
        }
        i -= 1;
    }
    let ghost nc_short = num_codes@;

    // Remove the reserved code from the longest length in use.
    let mut i: usize = 16;
    while i > 0 && num_codes[i] == 0
        invariant
            i <= 16,
            num_codes@ == nc_short,
            down_to_used(nc_short, 16) == down_to_used(nc_short, i as nat),
        decreases i,
    {
        i -= 1;
    }
    if num_codes[i] == 0 {
        {
            reveal(optimized_code);
            return None;
        }
    }
    num_codes[i] -= 1;
    let ghost nc_final = num_codes@;

    // The symbols, ordered by code length.
    let mut values: Vec<u8> = Vec::new();
    let ghost mut listed: Set<int> = Set::empty();
    let mut size: usize = 1;
    while size <= 32
        invariant
            1 <= size <= 33,
            values@.len() <= 256,
            forall|k: int| 0 <= k < 257 ==> #[trigger] code_size[k] > 0 ==> freq[k] > 0,
            forall|m: int| 0 <= m < values@.len() ==> freq[#[trigger] values@[m] as int] > 0,
            listed == Set::new(|t: int| 0 <= t < 256 && 1 <= code_size[t] < size),
            listed.finite(),
            values@.len() == listed.len(),
            forall|t: int| #[trigger] listed.contains(t) ==> values@.contains(t as u8),
            list_symbols(code_size@, 1, 0, Seq::empty()) == list_symbols(code_size@, size as nat, 0, values@),
        decreases 33 - size,
    {
        let mut j: usize = 0;
        while j < 256
            invariant
                j <= 256,
                1 <= size <= 32,
                values@.len() <= 256,
                forall|k: int| 0 <= k < 257 ==> #[trigger] code_size[k] > 0 ==> freq[k] > 0,
                forall|m: int| 0 <= m < values@.len() ==> freq[#[trigger] values@[m] as int] > 0,
                listed == Set::new(|t: int| 0 <= t < 256 && (1 <= code_size[t] < size || (code_size[t] == size && t < j))),
                listed.finite(),
                values@.len() == listed.len(),
                forall|t: int| #[trigger] listed.contains(t) ==> values@.contains(t as u8),
                list_symbols(code_size@, 1, 0, Seq::empty()) == list_symbols(code_size@, size as nat, j as nat, values@),
            decreases 256 - j,
        {
            let ghost before = values@;
            if code_size[j] == size {
                proof {
                    lemma_int_range(0, 256);
                    assert(listed.insert(j as int).subset_of(set_int_range(0, 256)));
                    lemma_len_subset(listed.insert(j as int), set_int_range(0, 256));
                    assert(!listed.contains(j as int));
                }
            }
            if code_size[j] == size && values.len() < 256 {
                values.push(j as u8);
                proof {
                    assert(values@[values@.len() - 1] == j as u8);
                    assert forall|t: int| #[trigger] listed.insert(j as int).contains(t) implies values@.contains(t as u8) by {
                        if t == j {
                            assert(values@[values@.len() - 1] == t as u8);
                        } else {
                            let m = choose|m: int| 0 <= m < before.len() && before[m] == t as u8;
                            assert(values@[m] == t as u8);
                        }
                    }
                    listed = listed.insert(j as int);
                }
            }
            proof {
                assert(listed =~= Set::new(|t: int| 0 <= t < 256 && (1 <= code_size[t] < size || (code_size[t] == size && t < j + 1))));
            }
            j += 1;
        }
        proof {
            assert(listed =~= Set::new(|t: int| 0 <= t < 256 && 1 <= code_size[t] < size + 1));
        }
        size += 1;
    }
    proof {
        assert forall|t: int| 0 <= t < 256 && #[trigger] freq[t] > 0 && freq[256] > 0 implies values@.contains(t as u8) by {
            assert(code_size[t] > 0);
            assert(code_size[t] <= 32);
            assert(listed.contains(t));
        }
    }

    let mut length = [0u8; 16];
    let mut k: usize = 0;
    while k < 16
        invariant
            k <= 16,
            num_codes@ == nc_final,
            forall|m: int| 1 <= m <= k ==> #[trigger] nc_final[m] <= 255,
            forall|m: int| 0 <= m < k ==> #[trigger] length@[m] == nc_final[m + 1] as u8,
            code_size@ == code_sizes(freq@),
            count_sizes(code_size@, 0, Seq::new(33, |k: int| 0u64)) == Some(nc_counted),
            shorten(nc_counted, 32) == Some(nc_short),
            nc_final == nc_short.update(down_to_used(nc_short, 16) as int, (nc_short[down_to_used(nc_short, 16) as int] - 1) as u64),
            nc_short[down_to_used(nc_short, 16) as int] != 0,
            down_to_used(nc_short, 16) <= 16,
        decreases 16 - k,
    {
        if num_codes[k + 1] > 255 {
            {
            reveal(optimized_code);
            return None;
        }
        }
        length[k] = num_codes[k + 1] as u8;
        k += 1;
    }
    proof {
        assert(length@ =~= lengths_of(nc_final));
        assert(counts_fit_byte(nc_final));
    }
    if !check_lengths_fit(&length) {
        {
            reveal(optimized_code);
            return None;
        }
    }
    if count_codes(&length) > values.len() {
        {
            reveal(optimized_code);
            return None;
        }
    }
    reveal(optimized_code);
    Some(HuffmanTable::new(&length, values.as_slice()))
}

} // verus!
