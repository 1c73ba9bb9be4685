use vstd::prelude::*;

use rand::rngs::ThreadRng;
use rand::Rng;

use crate::report::texts;

verus! {

/// `a[lo..=hi]` is an ascending run `a[lo..p]` followed by an ascending run
/// `a[p..=hi]` of smaller values: a strictly ascending sequence turned at `p`.
pub open spec fn turned(a: Seq<i32>, lo: int, hi: int, p: int) -> bool {
    &&& 0 <= lo
    &&& hi < a.len()
    &&& lo <= p <= hi + 1
    &&& forall|i: int, j: int| lo <= i < j < p ==> a[i] < a[j]
    &&& forall|i: int, j: int| p <= i < j <= hi ==> a[i] < a[j]
    &&& forall|i: int, j: int| lo <= i < p <= j <= hi ==> a[j] < a[i]
}

/// `value` stands somewhere in `a[lo..=hi]`.
pub open spec fn found_in(a: Seq<i32>, value: i32, lo: int, hi: int) -> bool {
    exists|i: int| lo <= i <= hi && a[i] == value
}

fn binary_search_recursive(array: &[i32], value: i32, low_idx: i32, high_idx: i32) -> (r: i32)
    requires
        0 <= low_idx <= high_idx < array@.len() <= 0x4000_0000,
        exists|p: int| #[trigger] turned(array@, low_idx as int, high_idx as int, p),
    ensures
        r == -1 <==> !found_in(array@, value, low_idx as int, high_idx as int),
        r != -1 ==> low_idx <= r <= high_idx && array@[r as int] == value,
    decreases high_idx - low_idx,
{
    let ghost a = array@;
    let ghost p = choose|p: int| turned(a, low_idx as int, high_idx as int, p);
    let mut low_idx = low_idx;
    let mut high_idx = high_idx;
    let ghost lo = low_idx as int;
    let ghost hi = high_idx as int;
    let mid_idx: i32 = (low_idx + high_idx) / 2;

    let l_value: i32 = array[low_idx as usize];
    let m_value: i32 = array[mid_idx as usize];
    let h_value: i32 = array[high_idx as usize];

    if l_value == value {
        return low_idx;
    } else if m_value == value {
        return mid_idx;
    } else if h_value == value {
        return high_idx;
    } else if low_idx == mid_idx && high_idx - mid_idx <= 1 {
        proof {
            assert forall|i: int| lo <= i <= hi implies a[i] != value by {
                assert(i == lo || i == hi);
            }
        }
        return -1;
    }
    let ghost mid = mid_idx as int;
    assert(lo < mid < hi);
    if m_value < value {
        if h_value > m_value && h_value > value {
            low_idx = mid_idx;
        } else if h_value < m_value {
            low_idx = mid_idx;
        } else if h_value < value {
            high_idx = mid_idx;
        }
    } else if m_value > value {
        if h_value < m_value && l_value > value {
            low_idx = mid_idx;
        } else if h_value > m_value {
            high_idx = mid_idx;
        } else if h_value < value {
            high_idx = mid_idx;
        }
    }
    let ghost nlo = low_idx as int;
    let ghost nhi = high_idx as int;
    proof {
        assert(nlo == mid || nhi == mid);
        let np = if p < nlo { nlo } else if p > nhi + 1 { nhi + 1 } else { p };
        assert(turned(a, nlo, nhi, np));
        assert forall|i: int| lo <= i <= hi && a[i] == value implies nlo <= i <= nhi by {
            if i < nlo || i > nhi {
                if p <= mid {
                    if i < p {
                        assert(a[hi] < a[i]);
                    }
                } else {
                    if i >= p {
                        assert(a[i] < a[lo]);
                    }
                }
            }
        }
    }
    let idx: i32 = binary_search_recursive(array, value, low_idx, high_idx);
    idx
}

/// Index of `value` in `array`, a strictly ascending sequence turned at some
/// place; -1 where it does not occur.
pub fn binary_search_value(array: &[i32], value: i32) -> (r: i32)
    requires
        1 <= array@.len() <= 0x4000_0000,
        exists|p: int| #[trigger] turned(array@, 0, array@.len() - 1, p),
    ensures
        r == -1 <==> !array@.contains(value),
        r != -1 ==> 0 <= r < array@.len() && array@[r as int] == value,
{
    let low_idx: i32 = 0;
    let high_idx: i32 = (array.len() - 1) as i32;
    let idx: i32 = binary_search_recursive(array, value, low_idx, high_idx);
    proof {
        if array@.contains(value) {
            let i = choose|i: int| 0 <= i < array@.len() && array@[i] == value;
            assert(found_in(array@, value, 0, high_idx as int));
        }
    }
    idx
}

/// `2` to the power `k`.
pub open spec fn pow2(k: nat) -> nat
    decreases k,
{
    if k == 0 {
        1
    } else {
        2 * pow2((k - 1) as nat)
    }
}

/// The largest power of two that is at most `n`, and `1` where `n < 2`.
pub fn get_highest_bit(n: i32) -> (r: i32)
    ensures
        exists|k: nat| r == #[trigger] pow2(k),
        r == 1 || r <= n,
        n < 2 * r,
{
    let mut bit: i32 = 1;
    let ghost mut k: nat = 0;
    while bit <= n / 2
        invariant
            bit == pow2(k),
            1 <= bit,
            bit == 1 || bit <= n,
        decreases n - bit,
    {
        bit = bit * 2;
        proof {
            k = k + 1;
        }
    }
    bit
}

/// The binary digit for `d < 2`.
pub open spec fn bit_char(d: nat) -> char {
    if d == 0 { '0' } else { '1' }
}

/// The `len` lowest binary digits of `v`, most significant first.
pub open spec fn bin_string(v: nat, len: nat) -> Seq<char>
    decreases len,
{
    if len == 0 {
        Seq::empty()
    } else {
        bin_string(v / 2, (len - 1) as nat).push(bit_char(v % 2))
    }
}

/// The number that a string of binary digits stands for.
pub open spec fn bits_value(s: Seq<char>) -> nat
    decreases s.len(),
{
    if s.len() == 0 {
        0
    } else {
        2 * bits_value(s.drop_last()) + if s.last() == '1' { 1nat } else { 0nat }
    }
}

pub open spec fn is_binary(s: Seq<char>) -> bool {
    forall|i: int| 0 <= i < s.len() ==> #[trigger] s[i] == '0' || s[i] == '1'
}

proof fn lemma_pow2_positive(k: nat)
    ensures
        pow2(k) >= 1,
    decreases k,
{
    if k > 0 {
        lemma_pow2_positive((k - 1) as nat);
    }
}

proof fn lemma_pow2_strict(a: nat, b: nat)
    requires
        a < b,
    ensures
        pow2(a) < pow2(b),
    decreases b,
{
    lemma_pow2_positive(a);
    if a + 1 < b {
        lemma_pow2_strict(a, (b - 1) as nat);
    }
}

/// A binary string is the string of its value.
proof fn lemma_bin_string_of_value(s: Seq<char>)
    requires
        is_binary(s),
    ensures
        bin_string(bits_value(s), s.len()) == s,
        bits_value(s) < pow2(s.len()),
    decreases s.len(),
{
    if s.len() > 0 {
        let t = s.drop_last();
        assert(is_binary(t)) by {
            assert forall|i: int| 0 <= i < t.len() implies #[trigger] t[i] == '0' || t[i] == '1' by {
                assert(s[i] == '0' || s[i] == '1');
            }
        }
        lemma_bin_string_of_value(t);
        assert(s[s.len() - 1] == '0' || s[s.len() - 1] == '1');
        let d: nat = if s.last() == '1' { 1 } else { 0 };
        let v = bits_value(s);
        assert(v == 2 * bits_value(t) + d);
        assert(v / 2 == bits_value(t) && v % 2 == d);
        assert(s =~= t.push(s.last()));
    }
}

/// The string of a value is a binary string of that value, where it fits.
proof fn lemma_value_of_bin_string(v: nat, len: nat)
    requires
        v < pow2(len),
    ensures
        is_binary(bin_string(v, len)),
        bits_value(bin_string(v, len)) == v,
        bin_string(v, len).len() == len,
    decreases len,
{
    if len > 0 {
        let t = bin_string(v / 2, (len - 1) as nat);
        assert(v / 2 < pow2((len - 1) as nat));
        lemma_value_of_bin_string(v / 2, (len - 1) as nat);
        let s = bin_string(v, len);
        assert(s.drop_last() =~= t);
        assert forall|i: int| 0 <= i < s.len() implies #[trigger] s[i] == '0' || s[i] == '1' by {
            if i < t.len() {
                assert(t[i] == '0' || t[i] == '1');
            }
        }
    } else {
        assert(v == 0);
    }
}

proof fn lemma_value_concat(a: Seq<char>, b: Seq<char>)
    ensures
        bits_value(a + b) == bits_value(a) * pow2(b.len()) + bits_value(b),
    decreases b.len(),
{
    if b.len() == 0 {
        assert(a + b =~= a);
        assert(bits_value(b) == 0);
        assert(pow2(0) == 1);
        assert(bits_value(a) * 1 == bits_value(a));
    } else {
        let b1 = b.drop_last();
        lemma_value_concat(a, b1);
        assert((a + b).drop_last() =~= a + b1);
        assert((a + b).last() == b.last());
        assert(pow2(b.len()) == 2 * pow2(b1.len()));
        let d: nat = if b.last() == '1' { 1 } else { 0 };
        let va = bits_value(a);
        let p = pow2(b1.len());
        assert(2 * (va * p + bits_value(b1)) + d == va * (2 * p) + (2 * bits_value(b1) + d))
            by (nonlinear_arith);
        assert(bits_value(a + b) == 2 * bits_value(a + b1) + d);
        assert(bits_value(b) == 2 * bits_value(b1) + d);
    }
}

proof fn lemma_value_zeros(k: nat)
    ensures
        bits_value(Seq::new(k, |i: int| '0')) == 0,
    decreases k,
{
    if k > 0 {
        lemma_value_zeros((k - 1) as nat);
        assert(Seq::new(k, |i: int| '0').drop_last() =~= Seq::new((k - 1) as nat, |i: int| '0'));
    }
}

proof fn lemma_value_ones(k: nat)
    ensures
        bits_value(Seq::new(k, |i: int| '1')) + 1 == pow2(k),
    decreases k,
{
    if k > 0 {
        lemma_value_ones((k - 1) as nat);
        assert(Seq::new(k, |i: int| '1').drop_last() =~= Seq::new((k - 1) as nat, |i: int| '1'));
    }
}

/// `n` written with exactly `length` binary digits (zero for a negative `n`).
pub fn get_bin(n: i32, length: usize) -> (r: String)
    requires
        length >= 1,
        n < pow2(length as nat),
    ensures
        r@ == bin_string(if n > 0 { n as nat } else { 0 }, length as nat),
{
    let ghost big: nat = if n > 0 { n as nat } else { 0 };
    let ghost orig = n;
    let mut bit: i32 = get_highest_bit(n);
    let mut n = n;
    let mut binary = String::new();
    let ghost top: nat = choose|k: nat| bit == #[trigger] pow2(k);
    let ghost mut j: nat = top;
    let ghost mut w: nat = 2 * bit as nat;
    proof {
        assert(binary@ =~= Seq::<char>::empty());
        assert(bits_value(binary@) == 0);
        lemma_pow2_positive(top);
        if orig > 0 {
            if top > length {
                lemma_pow2_strict(length as nat, top);
            }
        } else {
            if top > 0 {
                lemma_pow2_strict(0, top);
            }
        }
    }
    while bit >= 1
        invariant
            bit >= 1 ==> bit == pow2(j) && w == 2 * bit,
            bit == 0 ==> w == 1 && j == 0,
            bit >= 0,
            is_binary(binary@),
            binary@.len() + j + (if bit >= 1 { 1int } else { 0int }) == top + 1,
            bits_value(binary@) * w + (if n > 0 { n as nat } else { 0nat }) == big,
            n < w,
            orig <= 0 ==> n == orig,
            orig > 0 ==> n >= 0,
        decreases bit,
    {
        let ghost before = binary@;
        if n >= bit {
            binary.append("1");
            n = n - bit;
        } else {
            binary.append("0");
        }
        proof {
            reveal_strlit("1");
            reveal_strlit("0");
            let d: nat = if binary@.last() == '1' { 1 } else { 0 };
            assert(binary@.drop_last() =~= before);
            assert(is_binary(binary@)) by {
                assert forall|i: int| 0 <= i < binary@.len() implies #[trigger] binary@[i] == '0'
                    || binary@[i] == '1' by {
                    if i < before.len() {
                        assert(before[i] == '0' || before[i] == '1');
                    }
                }
            }
            let vb = bits_value(before);
            assert(bits_value(binary@) == 2 * vb + d);
            assert((2 * vb + d) * bit == vb * (2 * bit) + d * bit) by (nonlinear_arith);
            w = bit as nat;
        }
        bit = bit / 2;
        proof {
            if j > 0 {
                j = (j - 1) as nat;
            } else {
                assert(bit == 0);
            }
        }
    }
    let ghost digits = binary@;
    let mut padded = String::new();
    let mut k: usize = 0;
    let zeros: usize = length - binary.unicode_len();
    while k < zeros
        invariant
            k <= zeros,
            padded@ == Seq::new(k as nat, |i: int| '0'),
        decreases zeros - k,
    {
        padded.append("0");
        proof {
            reveal_strlit("0");
        }
        assert(padded@ =~= Seq::new(k as nat + 1, |i: int| '0'));
        k = k + 1;
    }
    padded.append(binary.as_str());
    proof {
        let z = Seq::new(zeros as nat, |i: int| '0');
        assert(padded@ == z + digits);
        lemma_value_concat(z, digits);
        lemma_value_zeros(zeros as nat);
        assert(is_binary(padded@)) by {
            assert forall|i: int| 0 <= i < padded@.len() implies #[trigger] padded@[i] == '0'
                || padded@[i] == '1' by {
                if i >= zeros {
                    assert(digits[i - zeros] == '0' || digits[i - zeros] == '1');
                }
            }
        }
        lemma_bin_string_of_value(padded@);
    }
    padded
}

/// `"0"`, then every number from one up to `2^n - 1` written with `n`
/// binary digits, in increasing order.
pub open spec fn binary_digit_strings(n: nat) -> Seq<Seq<char>> {
    seq![seq!['0']] + Seq::new((pow2(n) - 1) as nat, |i: int| bin_string((i + 1) as nat, n))
}

/// `"0"` and then the numbers from one to `2^n - 1` with `n` binary digits each.
pub fn binary_digits(n: usize) -> (r: Vec<String>)
    requires
        1 <= n <= 31,
    ensures
        texts(r@) == binary_digit_strings(n as nat),
{
    proof {
        reveal_with_fuel(pow2, 32);
        assert(pow2(31) == 0x8000_0000);
        if n < 31 {
            lemma_pow2_strict(n as nat, 31);
        }
        lemma_pow2_positive(n as nat);
    }
    let mut bins: Vec<String> = Vec::new();
    bins.push(String::from_str("0"));
    proof {
        reveal_strlit("0");
        assert(bins@[0]@ =~= seq!['0']);
    }
    let mut binary: i32 = 0;
    let mut max_bin = String::new();
    let mut k: usize = 0;
    while k < n
        invariant
            k <= n,
            max_bin@ == Seq::new(k as nat, |i: int| '1'),
        decreases n - k,
    {
        max_bin.append("1");
        proof {
            reveal_strlit("1");
        }
        assert(max_bin@ =~= Seq::new(k as nat + 1, |i: int| '1'));
        k = k + 1;
    }
    let ghost ones = max_bin@;
    proof {
        lemma_value_ones(n as nat);
        lemma_bin_string_of_value(ones);
        assert(texts(bins@) =~= seq![seq!['0']] + Seq::new(0, |i: int| bin_string((i + 1) as nat, n as nat)));
    }
    let mut binary_string = get_bin(binary, n);
    while !binary_string.eq(&max_bin)
        invariant
            max_bin@ == ones,
            bits_value(ones) + 1 == pow2(n as nat),
            bin_string(bits_value(ones), n as nat) == ones,
            pow2(n as nat) <= 0x8000_0000,
            1 <= n <= 31,
            0 <= binary < pow2(n as nat),
            binary_string@ == bin_string(binary as nat, n as nat),
            texts(bins@) == seq![seq!['0']] + Seq::new(
                binary as nat,
                |i: int| bin_string((i + 1) as nat, n as nat),
            ),
        decreases pow2(n as nat) - binary,
    {
        assert(binary + 1 < pow2(n as nat));
        binary = binary + 1;
        binary_string = get_bin(binary, n);
        let ghost prev = texts(bins@);
        bins.push(binary_string.clone());
        proof {
            assert(texts(bins@) =~= prev.push(binary_string@));
            assert(texts(bins@) =~= seq![seq!['0']] + Seq::new(
                binary as nat,
                |i: int| bin_string((i + 1) as nat, n as nat),
            ));
        }
    }
    proof {
        lemma_value_of_bin_string(binary as nat, n as nat);
    }
    bins
}

/// Every string of `n` binary digits appended to `prefix`, in increasing order.
pub open spec fn binary_strings(prefix: Seq<char>, n: nat) -> Seq<Seq<char>>
    decreases n,
{
    if n == 0 {
        seq![prefix]
    } else {
        binary_strings(prefix.push('0'), (n - 1) as nat) + binary_strings(
            prefix.push('1'),
            (n - 1) as nat,
        )
    }
}

/// The digits of `v` split after the most significant one.
proof fn lemma_bin_string_split(v: nat, n: nat)
    requires
        n >= 1,
        v < pow2(n),
    ensures
        bin_string(v, n) == seq![bit_char(v / pow2((n - 1) as nat))] + bin_string(
            v % pow2((n - 1) as nat),
            (n - 1) as nat,
        ),
{
    let m = (n - 1) as nat;
    let big = pow2(m);
    lemma_pow2_positive(m);
    assert(pow2(n) == 2 * big);
    let b = v / big;
    let r = v % big;
    assert(v == b * big + r && r < big) by (nonlinear_arith)
        requires
            big > 0,
            b == v / big,
            r == v % big,
    ;
    assert(b < 2) by (nonlinear_arith)
        requires
            v == b * big + r,
            v < 2 * big,
            r >= 0,
    ;
    let head = seq![bit_char(b)];
    let tail = bin_string(r, m);
    lemma_value_of_bin_string(r, m);
    lemma_value_concat(head, tail);
    assert(head.drop_last() =~= Seq::<char>::empty());
    assert(bits_value(head.drop_last()) == 0);
    assert(head.last() == bit_char(b));
    if b == 0 {
        assert(bits_value(head) == 0);
    } else {
        assert(bits_value(head) == 1);
    }
    let whole = head + tail;
    assert(is_binary(whole)) by {
        assert forall|i: int| 0 <= i < whole.len() implies #[trigger] whole[i] == '0' || whole[i]
            == '1' by {
            if i > 0 {
                assert(tail[i - 1] == '0' || tail[i - 1] == '1');
            }
        }
    }
    lemma_bin_string_of_value(whole);
}

/// Entry `i` of `binary_strings(prefix, n)` is `prefix` followed by `i` in
/// `n` binary digits.
pub proof fn lemma_binary_strings(prefix: Seq<char>, n: nat)
    ensures
        binary_strings(prefix, n).len() == pow2(n),
        forall|i: nat| i < pow2(n) ==> #[trigger] binary_strings(prefix, n)[i as int] == prefix
            + bin_string(i, n),
    decreases n,
{
    if n == 0 {
        assert(prefix + bin_string(0, 0) =~= prefix);
    } else {
        let m = (n - 1) as nat;
        let big = pow2(m);
        lemma_pow2_positive(m);
        lemma_binary_strings(prefix.push('0'), m);
        lemma_binary_strings(prefix.push('1'), m);
        let all = binary_strings(prefix, n);
        assert forall|i: nat| i < pow2(n) implies #[trigger] all[i as int] == prefix + bin_string(
            i,
            n,
        ) by {
            lemma_bin_string_split(i, n);
            if i < big {
                assert(i / big == 0 && i % big == i) by (nonlinear_arith)
                    requires
                        i < big,
                ;
                assert(prefix.push('0') + bin_string(i, m) =~= prefix + (seq![bit_char(0)]
                    + bin_string(i, m)));
            } else {
                let j = (i - big) as nat;
                assert(i / big == 1 && i % big == j) by (nonlinear_arith)
                    requires
                        big <= i < 2 * big,
                        j == i - big,
                ;
                assert(all[i as int] == binary_strings(prefix.push('1'), m)[j as int]);
                assert(prefix.push('1') + bin_string(j, m) =~= prefix + (seq![bit_char(1)]
                    + bin_string(j, m)));
            }
        }
    }
}

fn binary_recursion(binary: String, n: usize) -> (r: Vec<String>)
    ensures
        texts(r@) == binary_strings(binary@, n as nat),
    decreases n,
{
    if n == 0 {
        let v = vec![binary];
        assert(texts(v@) =~= binary_strings(v@[0]@, 0));
        return v;
    }
    let mut binary_input1 = binary.clone();
    binary_input1.append("0");
    let mut binary_input2 = binary;
    binary_input2.append("1");
    proof {
        reveal_strlit("0");
        reveal_strlit("1");
        assert(binary_input1@ =~= binary@.push('0'));
        assert(binary_input2@ =~= binary@.push('1'));
    }
    let mut rec_binary1 = binary_recursion(binary_input1, n - 1);
    let mut rec_binary2 = binary_recursion(binary_input2, n - 1);
    let ghost first = rec_binary1@;
    let ghost second = rec_binary2@;
    rec_binary1.append(&mut rec_binary2);
    assert(texts(rec_binary1@) =~= texts(first) + texts(second));
    rec_binary1
}

/// Every string of `n` binary digits, in increasing order; none for `n == 0`.
pub fn generate_binary_combinations(n: usize) -> (r: Vec<String>)
    ensures
        n == 0 ==> r@.len() == 0,
        n > 0 ==> texts(r@) == binary_strings(Seq::empty(), n as nat),
        n > 0 ==> r@.len() == pow2(n as nat),
        n > 0 ==> forall|i: nat| i < pow2(n as nat) ==> #[trigger] r@[i as int]@ == bin_string(
            i,
            n as nat,
        ),
{
    if n == 0 {
        return Vec::new();
    }
    let r = binary_recursion(String::new(), n);
    proof {
        lemma_binary_strings(Seq::empty(), n as nat);
        assert forall|i: nat| i < pow2(n as nat) implies #[trigger] r@[i as int]@ == bin_string(
            i,
            n as nat,
        ) by {
            assert(texts(r@)[i as int] == r@[i as int]@);
            assert(Seq::<char>::empty() + bin_string(i, n as nat) =~= bin_string(i, n as nat));
        }
    }
    r
}

/// The values of a list of lists.
pub open spec fn lists(v: Seq<Vec<i32>>) -> Seq<Seq<i32>> {
    v.map_values(|x: Vec<i32>| x@)
}

/// `s` with the items at `a` and `b` exchanged.
pub open spec fn swapped(s: Seq<i32>, a: int, b: int) -> Seq<i32> {
    s.update(a, s[b]).update(b, s[a])
}

/// The orderings of `s` that keep `s[..start]` and bring each item of
/// `s[start..]` in turn to `start` by an exchange, the rest ordered alike.
pub open spec fn swap_perms(s: Seq<i32>, start: nat) -> Seq<Seq<i32>>
    decreases s.len() - start, 1nat, 0nat,
{
    if start == s.len() {
        seq![s]
    } else if start > s.len() {
        Seq::empty()
    } else {
        swap_perms_from(s, start, start)
    }
}

/// The part of `swap_perms(s, start)` that brings the items from index `i` on to `start`.
pub open spec fn swap_perms_from(s: Seq<i32>, start: nat, i: nat) -> Seq<Seq<i32>>
    decreases s.len() - start, 0nat, s.len() - i,
{
    if start < s.len() && i < s.len() {
        swap_perms(swapped(s, start as int, i as int), start + 1) + swap_perms_from(s, start, i + 1)
    } else {
        Seq::empty()
    }
}

/// `n!`
pub open spec fn factorial(n: nat) -> nat
    decreases n,
{
    if n == 0 {
        1
    } else {
        n * factorial((n - 1) as nat)
    }
}

proof fn lemma_update_multiset(s: Seq<i32>, i: int, x: i32)
    requires
        0 <= i < s.len(),
    ensures
        s.update(i, x).to_multiset() == s.to_multiset().remove(s[i]).insert(x),
{
    broadcast use vstd::seq_lib::group_to_multiset_ensures;
    assert(s.update(i, x) =~= s.remove(i).insert(i, x));
}

proof fn lemma_swapped_multiset(s: Seq<i32>, a: int, b: int)
    requires
        0 <= a < s.len(),
        0 <= b < s.len(),
    ensures
        swapped(s, a, b).to_multiset() == s.to_multiset(),
        swapped(s, a, b).len() == s.len(),
{
    broadcast use vstd::multiset::group_multiset_axioms;
    broadcast use vstd::seq_lib::group_to_multiset_ensures;
    if a == b {
        assert(swapped(s, a, b) =~= s);
    } else {
        let t = s.update(a, s[b]);
        lemma_update_multiset(s, a, s[b]);
        lemma_update_multiset(t, b, s[a]);
        assert(t[b] == s[b]);
        assert(s.contains(s[a]));
        assert(s.to_multiset().count(s[a]) > 0);
        assert(s.to_multiset().remove(s[a]).insert(s[b]).remove(s[b]).insert(s[a])
            =~= s.to_multiset());
    }
}

/// Each list that `swap_perms(s, start)` gives is an ordering of `s` that keeps
/// `s[..start]`, and there are `(s.len() - start)!` of them.
pub proof fn lemma_swap_perms(s: Seq<i32>, start: nat)
    requires
        start <= s.len(),
    ensures
        swap_perms(s, start).len() == factorial((s.len() - start) as nat),
        forall|k: int|
            0 <= k < swap_perms(s, start).len() ==> (#[trigger] swap_perms(s, start)[k]).to_multiset()
                == s.to_multiset() && swap_perms(s, start)[k].len() == s.len() && swap_perms(
                s,
                start,
            )[k].subrange(0, start as int) == s.subrange(0, start as int),
    decreases s.len() - start, 1nat, 0nat,
{
    if start < s.len() {
        lemma_swap_perms_from(s, start, start);
    }
}

proof fn lemma_swap_perms_from(s: Seq<i32>, start: nat, i: nat)
    requires
        start < s.len(),
        start <= i <= s.len(),
    ensures
        swap_perms_from(s, start, i).len() == (s.len() - i) * factorial(
            (s.len() - start - 1) as nat,
        ),
        forall|k: int|
            0 <= k < swap_perms_from(s, start, i).len() ==> (#[trigger] swap_perms_from(
                s,
                start,
                i,
            )[k]).to_multiset() == s.to_multiset() && swap_perms_from(s, start, i)[k].len()
                == s.len() && swap_perms_from(s, start, i)[k].subrange(0, start as int)
                == s.subrange(0, start as int),
    decreases s.len() - start, 0nat, s.len() - i,
{
    let f = factorial((s.len() - start - 1) as nat);
    if i < s.len() {
        let t = swapped(s, start as int, i as int);
        lemma_swapped_multiset(s, start as int, i as int);
        lemma_swap_perms(t, start + 1);
        lemma_swap_perms_from(s, start, i + 1);
        let a = swap_perms(t, start + 1);
        let rest = swap_perms_from(s, start, i + 1);
        let all = swap_perms_from(s, start, i);
        assert(all == a + rest);
        assert(a.len() + rest.len() == (s.len() - i) * f) by (nonlinear_arith)
            requires
                a.len() == f,
                rest.len() == (s.len() - i - 1) * f,
        ;
        assert forall|k: int| 0 <= k < all.len() implies (#[trigger] all[k]).to_multiset()
            == s.to_multiset() && all[k].len() == s.len() && all[k].subrange(0, start as int)
            == s.subrange(0, start as int) by {
            if k < a.len() {
                assert(all[k] == a[k]);
                assert(a[k].subrange(0, start as int) =~= a[k].subrange(0, start as int + 1).subrange(
                    0,
                    start as int,
                ));
                assert(t.subrange(0, start as int) =~= s.subrange(0, start as int));
            } else {
                assert(all[k] == rest[k - a.len()]);
            }
        }
    } else {
        assert(s.len() - i == 0);
        assert((s.len() - i) * f == 0) by (nonlinear_arith)
            requires
                s.len() - i == 0,
        ;
    }
}

fn swap_items(nums: &mut Vec<i32>, a: usize, b: usize)
    requires
        a < old(nums)@.len(),
        b < old(nums)@.len(),
    ensures
        final(nums)@ == swapped(old(nums)@, a as int, b as int),
{
    let x = nums[a];
    let y = nums[b];
    nums.set(a, y);
    nums.set(b, x);
}

/// Appends to `result` every ordering of `nums` that keeps `nums[..start]`;
/// `nums` is as it was afterwards.
pub fn recursive_permute(nums: &mut Vec<i32>, result: &mut Vec<Vec<i32>>, start: usize)
    ensures
        final(nums)@ == old(nums)@,
        lists(final(result)@) == lists(old(result)@) + swap_perms(old(nums)@, start as nat),
    decreases nums@.len() - start,
{
    let ghost s = nums@;
    let ghost r0 = lists(result@);
    if start == nums.len() {
        let copy = nums.clone();
        assert(copy@ =~= nums@);
        result.push(copy);
        assert(lists(result@) =~= r0 + swap_perms(s, start as nat));
        return;
    }
    let mut i: usize = start;
    proof {
        if start > s.len() {
            assert(lists(result@) =~= r0 + swap_perms(s, start as nat));
        }
    }
    while i < nums.len()
        invariant
            nums@ == s,
            s == old(nums)@,
            start <= s.len() ==> start <= i <= s.len(),
            start > s.len() ==> i == start,
            start > s.len() ==> lists(result@) == r0 + swap_perms(s, start as nat),
            start <= s.len() ==> lists(result@) + swap_perms_from(s, start as nat, i as nat) == r0
                + swap_perms_from(s, start as nat, start as nat),
        decreases s.len() - i,
    {
        swap_items(nums, start, i);
        let ghost before = lists(result@);
        recursive_permute(nums, result, start + 1);
        swap_items(nums, start, i);
        proof {
            assert(swapped(swapped(s, start as int, i as int), start as int, i as int) =~= s);
            let a = swap_perms(swapped(s, start as int, i as int), start as nat + 1);
            assert(swap_perms_from(s, start as nat, i as nat) == a + swap_perms_from(
                s,
                start as nat,
                i as nat + 1,
            ));
            assert(before + swap_perms_from(s, start as nat, i as nat) =~= (before + a)
                + swap_perms_from(s, start as nat, i as nat + 1));
        }
        i = i + 1;
    }
    proof {
        if start < s.len() {
            assert(swap_perms_from(s, start as nat, i as nat) =~= Seq::empty());
            assert(lists(result@) =~= lists(result@) + swap_perms_from(s, start as nat, i as nat));
        }
    }
}

/// Every ordering of `nums`, by exchanges.
pub fn permute_backtrack(nums: Vec<i32>) -> (r: Vec<Vec<i32>>)
    ensures
        lists(r@) == swap_perms(nums@, 0),
        r@.len() == factorial(nums@.len()),
        forall|k: int|
            0 <= k < r@.len() ==> (#[trigger] r@[k])@.to_multiset() == nums@.to_multiset(),
{
    proof {
        lemma_swap_perms(nums@, 0);
    }
    let mut nums = nums;
    let mut result: Vec<Vec<i32>> = Vec::new();
    assert(lists(result@) =~= Seq::empty());
    recursive_permute(&mut nums, &mut result, 0);
    assert(lists(result@) =~= swap_perms(nums@, 0));
    assert forall|k: int| 0 <= k < result@.len() implies (#[trigger] result@[k])@.to_multiset()
        == nums@.to_multiset() by {
        assert(lists(result@)[k] == result@[k]@);
    }
    result
}

/// `s` turned left by `k` places.
pub open spec fn rotated(s: Seq<i32>, k: int) -> Seq<i32> {
    s.subrange(k, s.len() as int) + s.subrange(0, k)
}

/// Each list of `ps` with `n` appended.
pub open spec fn each_with_last(ps: Seq<Seq<i32>>, n: i32) -> Seq<Seq<i32>> {
    ps.map_values(|p: Seq<i32>| p.push(n))
}

/// The orderings of `s` found by taking each item in turn (`s` turned left
/// by its index) as the last, after every ordering of the others.
pub open spec fn rotation_perms(s: Seq<i32>) -> Seq<Seq<i32>>
    decreases s.len(), 1nat, 0nat,
{
    if s.len() == 1 {
        seq![s]
    } else {
        rotation_perms_from(s, 0)
    }
}

/// The part of `rotation_perms(s)` for the turns from `k` on.
pub open spec fn rotation_perms_from(s: Seq<i32>, k: nat) -> Seq<Seq<i32>>
    decreases s.len(), 0nat, s.len() - k,
{
    if k < s.len() && s.len() != 1 {
        each_with_last(rotation_perms(rotated(s, k as int).drop_first()), rotated(s, k as int)[0])
            + rotation_perms_from(s, k + 1)
    } else {
        Seq::empty()
    }
}

proof fn lemma_rotated_multiset(s: Seq<i32>, k: int)
    requires
        0 <= k <= s.len(),
    ensures
        rotated(s, k).to_multiset() == s.to_multiset(),
        rotated(s, k).len() == s.len(),
{
    broadcast use vstd::multiset::group_multiset_axioms;
    let a = s.subrange(0, k);
    let b = s.subrange(k, s.len() as int);
    assert(s =~= a + b);
    vstd::seq_lib::lemma_multiset_commutative(a, b);
    vstd::seq_lib::lemma_multiset_commutative(b, a);
    assert(a.to_multiset().add(b.to_multiset()) =~= b.to_multiset().add(a.to_multiset()));
}

/// Each list that `rotation_perms(s)` gives is an ordering of `s`, and for a
/// non-empty `s` there are `s.len()!` of them.
pub proof fn lemma_rotation_perms(s: Seq<i32>)
    requires
        s.len() >= 1,
    ensures
        rotation_perms(s).len() == factorial(s.len()),
        forall|k: int|
            0 <= k < rotation_perms(s).len() ==> (#[trigger] rotation_perms(s)[k]).to_multiset()
                == s.to_multiset() && rotation_perms(s)[k].len() == s.len(),
    decreases s.len(), 1nat, 0nat,
{
    if s.len() == 1 {
        assert(factorial(1) == 1 * factorial(0));
    } else {
        lemma_rotation_perms_from(s, 0);
        assert(s.len() * factorial((s.len() - 1) as nat) == factorial(s.len()));
    }
}

proof fn lemma_rotation_perms_from(s: Seq<i32>, k: nat)
    requires
        s.len() >= 2,
        k <= s.len(),
    ensures
        rotation_perms_from(s, k).len() == (s.len() - k) * factorial((s.len() - 1) as nat),
        forall|j: int|
            0 <= j < rotation_perms_from(s, k).len() ==> (#[trigger] rotation_perms_from(
                s,
                k,
            )[j]).to_multiset() == s.to_multiset() && rotation_perms_from(s, k)[j].len() == s.len(),
    decreases s.len(), 0nat, s.len() - k,
{
    broadcast use vstd::multiset::group_multiset_axioms;
    broadcast use vstd::seq_lib::group_to_multiset_ensures;
    let f = factorial((s.len() - 1) as nat);
    if k < s.len() {
        let rot = rotated(s, k as int);
        lemma_rotated_multiset(s, k as int);
        let rest_items = rot.drop_first();
        lemma_rotation_perms(rest_items);
        lemma_rotation_perms_from(s, k + 1);
        let sub = rotation_perms(rest_items);
        let a = each_with_last(sub, rot[0]);
        let rest = rotation_perms_from(s, k + 1);
        let all = rotation_perms_from(s, k);
        assert(all == a + rest);
        assert(a.len() + rest.len() == (s.len() - k) * f) by (nonlinear_arith)
            requires
                a.len() == f,
                rest.len() == (s.len() - k - 1) * f,
        ;
        assert(rest_items =~= rot.remove(0));
        assert(rot.contains(rot[0]));
        assert(rest_items.to_multiset().insert(rot[0]) =~= rot.to_multiset());
        assert forall|j: int| 0 <= j < all.len() implies (#[trigger] all[j]).to_multiset()
            == s.to_multiset() && all[j].len() == s.len() by {
            if j < a.len() {
                assert(all[j] == sub[j].push(rot[0]));
                assert(sub[j].to_multiset() == rest_items.to_multiset());
            } else {
                assert(all[j] == rest[j - a.len()]);
            }
        }
    } else {
        assert(s.len() - k == 0);
        assert((s.len() - k) * f == 0) by (nonlinear_arith)
            requires
                s.len() - k == 0,
        ;
    }
}

/// Appends to `result` every ordering of `nums`, each built by taking one
/// item as the last; `nums` is as it was afterwards.
pub fn recursive_permute2(nums: &mut Vec<i32>, result: &mut Vec<Vec<i32>>)
    ensures
        final(nums)@ == old(nums)@,
        lists(final(result)@) == lists(old(result)@) + rotation_perms(old(nums)@),
    decreases nums@.len(),
{
    let ghost s = nums@;
    let ghost r0 = lists(result@);
    if nums.len() == 1 {
        let copy = nums.clone();
        assert(copy@ =~= nums@);
        result.push(copy);
        assert(lists(result@) =~= r0 + rotation_perms(s));
        return;
    }
    let len = nums.len();
    let mut k: usize = 0;
    proof {
        assert(rotated(s, 0) =~= s);
        assert(lists(result@) + rotation_perms_from(s, 0) =~= r0 + rotation_perms(s));
    }
    while k < len
        invariant
            len == s.len(),
            len != 1,
            s == old(nums)@,
            k <= len,
            nums@ == rotated(s, k as int),
            lists(result@) + rotation_perms_from(s, k as nat) == r0 + rotation_perms(s),
        decreases len - k,
    {
        let ghost rot = nums@;
        let n = nums.remove(0);
        let mut partial_result: Vec<Vec<i32>> = Vec::new();
        assert(lists(partial_result@) =~= Seq::empty());
        recursive_permute2(nums, &mut partial_result);
        let ghost sub = rotation_perms(rot.drop_first());
        assert(lists(partial_result@) =~= sub);
        let ghost before = lists(result@);
        let mut j: usize = 0;
        while j < partial_result.len()
            invariant
                j <= partial_result@.len(),
                lists(partial_result@) == sub,
                lists(result@) == before + each_with_last(sub.subrange(0, j as int), n),
            decreases partial_result@.len() - j,
        {
            let mut subset = partial_result[j].clone();
            assert(subset@ =~= partial_result@[j as int]@);
            subset.push(n);
            let ghost prev = lists(result@);
            result.push(subset);
            proof {
                assert(lists(result@) =~= prev.push(subset@));
                assert(sub.subrange(0, j + 1) =~= sub.subrange(0, j as int).push(sub[j as int]));
                assert(each_with_last(sub.subrange(0, j + 1), n) =~= each_with_last(
                    sub.subrange(0, j as int),
                    n,
                ).push(sub[j as int].push(n)));
            }
            j = j + 1;
        }
        nums.push(n);
        proof {
            assert(sub.subrange(0, j as int) =~= sub);
            assert(rot.drop_first().push(n) =~= rotated(s, k + 1));
            assert(rotation_perms_from(s, k as nat) == each_with_last(sub, n) + rotation_perms_from(
                s,
                k as nat + 1,
            ));
            assert(before + rotation_perms_from(s, k as nat) =~= (before + each_with_last(sub, n))
                + rotation_perms_from(s, k as nat + 1));
        }
        k = k + 1;
    }
    proof {
        assert(rotated(s, len as int) =~= s);
        assert(rotation_perms_from(s, k as nat) =~= Seq::empty());
        assert(lists(result@) =~= lists(result@) + rotation_perms_from(s, k as nat));
    }
}

/// Every ordering of `nums`, each built by taking one item as the last.
pub fn permute(nums: Vec<i32>) -> (r: Vec<Vec<i32>>)
    ensures
        lists(r@) == rotation_perms(nums@),
        nums@.len() == 0 ==> r@.len() == 0,
        nums@.len() > 0 ==> r@.len() == factorial(nums@.len()),
        forall|k: int|
            0 <= k < r@.len() ==> (#[trigger] r@[k])@.to_multiset() == nums@.to_multiset(),
{
    proof {
        if nums@.len() > 0 {
            lemma_rotation_perms(nums@);
        } else {
            assert(rotation_perms(nums@) =~= Seq::empty());
        }
    }
    let mut nums = nums;
    let mut result: Vec<Vec<i32>> = Vec::new();
    assert(lists(result@) =~= Seq::empty());
    recursive_permute2(&mut nums, &mut result);
    assert(lists(result@) =~= rotation_perms(nums@));
    assert forall|k: int| 0 <= k < result@.len() implies (#[trigger] result@[k])@.to_multiset()
        == nums@.to_multiset() by {
        assert(lists(result@)[k] == result@[k]@);
    }
    result
}

#[verifier::external_type_specification]
#[verifier::external_body]
pub struct ExThreadRng(ThreadRng);

/// Relies on `rand::thread_rng`: a handle on this thread's random generator.
#[verifier::external_body]
fn thread_rng() -> ThreadRng {
    rand::thread_rng()
}

/// Relies on `rand::Rng::gen_range` over `lo..=hi`: a value within the range;
/// the range must not be empty (the call asserts that).
#[verifier::external_body]
fn gen_range_inclusive(rng: &mut ThreadRng, lo: usize, hi: usize) -> (r: usize)
    requires
        lo <= hi,
    ensures
        lo <= r <= hi,
{
    rng.gen_range(lo..=hi)
}

/// The items of `s` in ascending order.
pub open spec fn sorted(s: Seq<i32>) -> bool {
    forall|i: int, j: int| 0 <= i < j < s.len() ==> s[i] <= s[j]
}

/// Relies on `slice::sort`: the same items, in ascending order.
#[verifier::external_body]
fn sort_values(v: &mut Vec<i32>)
    ensures
        final(v)@.to_multiset() == old(v)@.to_multiset(),
        sorted(final(v)@),
{
    v.sort();
}

fn contains_value(v: &Vec<i32>, x: i32) -> (r: bool)
    ensures
        r == v@.contains(x),
{
    let mut i: usize = 0;
    while i < v.len()
        invariant
            i <= v@.len(),
            forall|j: int| 0 <= j < i ==> v@[j] != x,
        decreases v@.len() - i,
    {
        if v[i] == x {
            return true;
        }
        i += 1;
    }
    false
}

/// Sample data for a search: distinct values, among them zero, in ascending
/// order and then turned left at a random place. Of `size` random draws
/// `i * step` (with `step` in `1..=size`, kept to 32 bits), each new value is kept.
pub fn generate_array(size: usize) -> (r: Vec<i32>)
    requires
        2 <= size <= i32::MAX,
    ensures
        exists|s: Seq<i32>, k: int|
            #![trigger rotated(s, k)]
            sorted(s) && s.no_duplicates() && s.contains(0) && 2 <= s.len() <= size && 1 <= k
                < s.len() && r@ == rotated(s, k),
        exists|p: int| #[trigger] turned(r@, 0, r@.len() - 1, p),
{
    let mut array: Vec<i32> = Vec::new();
    let mut rng = thread_rng();
    let mut i: usize = 0;
    while i < size
        invariant
            i <= size <= i32::MAX,
            array@.len() <= i,
            array@.no_duplicates(),
            i >= 1 ==> array@.len() >= 1 && array@[0] == 0,
            i >= 2 ==> array@.len() >= 2,
        decreases size - i,
    {
        let random_step: usize = gen_range_inclusive(&mut rng, 1, size);
        assert(i * random_step <= size * size) by (nonlinear_arith)
            requires
                i < size,
                random_step <= size,
        ;
        assert(size * size <= 0x4000_0000_0000_0000) by (nonlinear_arith)
            requires
                size <= i32::MAX,
        ;
        assert(i == 1 ==> i * random_step == random_step);
        let product: u64 = (i as u64) * (random_step as u64);
        let value: i32 = #[verifier::truncate] (product as i32);
        if !contains_value(&array, value) {
            let ghost before = array@;
            array.push(value);
            proof {
                assert forall|a: int, b: int|
                    0 <= a < array@.len() && 0 <= b < array@.len() && a != b implies array@[a]
                    != array@[b] by {
                    if a < before.len() && b < before.len() {
                    } else if a < before.len() {
                        assert(before.contains(before[a]));
                    } else {
                        assert(before.contains(before[b]));
                    }
                }
            }
        } else {
            proof {
                if i == 1 {
                    assert(product == random_step);
                    assert(1 <= value);
                    let j = choose|j: int| 0 <= j < array@.len() && array@[j] == value;
                    assert(array@[0] == 0);
                }
            }
        }
        i += 1;
    }
    let ghost unsorted = array@;
    sort_values(&mut array);
    proof {
        unsorted.to_multiset_ensures();
        array@.to_multiset_ensures();
        unsorted.lemma_multiset_has_no_duplicates();
        array@.lemma_multiset_has_no_duplicates_conv();
        assert(unsorted.contains(unsorted[0]));
    }
    let len = array.len();
    let random_split: usize = gen_range_inclusive(&mut rng, 1, len - 1);
    let mut output: Vec<i32> = Vec::new();
    let mut j: usize = random_split;
    while j < len
        invariant
            len == array@.len(),
            random_split <= j <= len,
            output@ == array@.subrange(random_split as int, j as int),
        decreases len - j,
    {
        output.push(array[j]);
        assert(output@ =~= array@.subrange(random_split as int, j + 1));
        j += 1;
    }
    let mut j: usize = 0;
    while j < random_split
        invariant
            len == array@.len(),
            random_split < len,
            j <= random_split,
            output@ == array@.subrange(random_split as int, len as int) + array@.subrange(0, j as int),
        decreases random_split - j,
    {
        output.push(array[j]);
        assert(output@ =~= array@.subrange(random_split as int, len as int) + array@.subrange(
            0,
            j + 1,
        ));
        j += 1;
    }
    proof {
        assert(array@.to_multiset() == unsorted.to_multiset());
        assert(unsorted.contains(0));
        assert(unsorted.to_multiset().count(0) > 0);
        assert(array@.contains(0));
        assert(array@.len() == unsorted.len());
        assert(array@.no_duplicates());
        assert(output@ == rotated(array@, random_split as int));
        let sv = array@;
        let o = output@;
        let k = random_split as int;
        let n = len as int;
        let p = n - k;
        assert forall|i: int, j: int| 0 <= i < j < n implies sv[i] < sv[j] by {
            assert(sv[i] != sv[j]);
        }
        assert forall|i: int| 0 <= i < n implies #[trigger] o[i] == if i < p { sv[i + k] } else {
            sv[i - p]
        } by {}
        assert(turned(o, 0, n - 1, p));
    }
    output
}

} // verus!
