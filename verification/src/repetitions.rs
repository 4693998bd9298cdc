//! Repetition detector: the fraction of fixed-length byte windows of one
//! document whose rolling-hash fingerprint already occurred earlier in the
//! same document.

use vstd::prelude::*;
use vstd::arithmetic::div_mod::lemma_mod_multiples_vanish;
use crate::fingerprints::FingerprintTable;
use crate::ratio::Ratio;

verus! {

/// Base of the polynomial window hash.
pub const HASH_BASE: u64 = 33;

/// Prime modulus of the polynomial window hash.
pub const HASH_MODULUS: u64 = 1_000_000_007;

/// Number of fingerprint slots allotted per byte of text.
pub const SLOTS_PER_BYTE: usize = 4;

/// The polynomial `w[0] * 33^(k-1) + w[1] * 33^(k-2) + ... + w[k-1]` of a
/// window `w` of `k` bytes, before reduction.
pub open spec fn window_poly(w: Seq<u8>) -> int
    decreases w.len(),
{
    if w.len() == 0 {
        0
    } else {
        window_poly(w.drop_last()) * 33 + w.last() as int
    }
}

/// The fingerprint of a window: its polynomial reduced modulo the prime, in
/// `[0, HASH_MODULUS)`.
pub open spec fn window_hash(w: Seq<u8>) -> int {
    window_poly(w) % 1_000_000_007
}

/// The `j`-th window of length `n` of `text`: the bytes `j .. j + n`.
pub open spec fn window_at(text: Seq<u8>, n: int, j: int) -> Seq<u8> {
    text.subrange(j, j + n)
}

/// The `j`-th window has the fingerprint of some earlier window.
pub open spec fn repeats_earlier(text: Seq<u8>, n: int, j: int) -> bool {
    exists|i: int|
        0 <= i < j && window_hash(#[trigger] window_at(text, n, i)) == window_hash(
            window_at(text, n, j),
        )
}

/// How many of the first `m` windows repeat the fingerprint of an earlier one.
pub open spec fn repeat_count(text: Seq<u8>, n: int, m: int) -> nat
    decreases m,
{
    if m <= 0 {
        0
    } else {
        repeat_count(text, n, m - 1) + (if repeats_earlier(text, n, m - 1) {
            1nat
        } else {
            0nat
        })
    }
}

/// The number of repeated windows of `text`: zero when the text is no longer
/// than a window, else the count over all `len - n + 1` windows.
pub open spec fn repeated_windows(text: Seq<u8>, n: int) -> nat {
    if text.len() <= n {
        0
    } else {
        repeat_count(text, n, text.len() - n + 1)
    }
}

/// `33^n`.
spec fn base_power(n: nat) -> int
    decreases n,
{
    if n == 0 {
        1
    } else {
        33 * base_power((n - 1) as nat)
    }
}

/// The value stored in the table for the `i`-th window: its fingerprint plus
/// one, so that no stored value is 0.
spec fn stored_value(text: Seq<u8>, n: int, i: int) -> u32 {
    (window_hash(window_at(text, n, i)) + 1) as u32
}

/// One of the first `m` windows has the stored value `g`.
spec fn stored_before(text: Seq<u8>, n: int, m: int, g: u32) -> bool {
    exists|i: int| 0 <= i < m && #[trigger] stored_value(text, n, i) == g
}

proof fn lemma_poly_split_first(w: Seq<u8>)
    requires
        w.len() > 0,
    ensures
        window_poly(w) == w[0] * base_power((w.len() - 1) as nat) + window_poly(w.drop_first()),
    decreases w.len(),
{
    if w.len() == 1 {
        assert(w.drop_last() =~= Seq::<u8>::empty());
        assert(w.drop_first() =~= Seq::<u8>::empty());
        assert(window_poly(w.drop_last()) == 0);
        assert(base_power(0) == 1);
        assert(w.last() == w[0]);
    } else {
        let front = w.drop_last();
        let k = (w.len() - 2) as nat;
        lemma_poly_split_first(front);
        assert(front.drop_first() =~= w.drop_first().drop_last());
        assert(w.drop_first().last() == w.last());
        assert(front[0] == w[0]);
        assert(base_power(k + 1) == 33 * base_power(k));
        let a = w[0] as int;
        let b = base_power(k);
        assert((a * b) * 33 == a * (33 * b)) by (nonlinear_arith);
    }
}

/// Sliding the window one byte to the right: drop the contribution of the
/// outgoing byte, multiply by the base, add the incoming byte.
proof fn lemma_poly_roll(w: Seq<u8>, c: u8)
    requires
        w.len() > 0,
    ensures
        window_poly(w.drop_first().push(c)) == 33 * window_poly(w) - w[0] * base_power(w.len())
            + c,
{
    lemma_poly_split_first(w);
    let next = w.drop_first().push(c);
    assert(next.drop_last() =~= w.drop_first());
    assert(next.last() == c);
    let k = (w.len() - 1) as nat;
    assert(base_power(k + 1) == 33 * base_power(k));
    let a = w[0] as int;
    let b = base_power(k);
    assert((a * b) * 33 == a * (33 * b)) by (nonlinear_arith);
}

/// The rolling update, carried out on residues, gives the fingerprint of the
/// next window.
proof fn lemma_hash_roll(text: Seq<u8>, n: int, j: int, h: int, bn: int)
    requires
        0 <= j,
        0 <= n,
        j + n < text.len(),
        h == window_hash(window_at(text, n, j)),
        bn == base_power(n as nat) % 1_000_000_007,
    ensures
        (h * 33 + 1_000_000_007 * 255 - bn * text[j] + text[j + n]) % 1_000_000_007
            == window_hash(window_at(text, n, j + 1)),
{
    let w = window_at(text, n, j);
    let next = window_at(text, n, j + 1);
    let out = text[j] as int;
    let inc = text[j + n] as int;
    if n == 0 {
        assert(w =~= Seq::<u8>::empty());
        assert(next =~= Seq::<u8>::empty());
        assert(base_power(0) == 1);
        assert(bn * out == out) by (nonlinear_arith)
            requires
                bn == 1,
        ;
    } else {
        assert(next =~= w.drop_first().push(text[j + n]));
        assert(w[0] == text[j]);
        lemma_poly_roll(w, text[j + n]);
        let x = window_poly(w);
        let y = base_power(n as nat);
        let qx = x / 1_000_000_007;
        let qy = y / 1_000_000_007;
        assert(x == 1_000_000_007 * qx + h);
        assert(y == 1_000_000_007 * qy + bn);
        let k = 33 * qx - qy * out - 255;
        let small = h * 33 + 1_000_000_007 * 255 - bn * out + inc;
        assert(33 * x - out * y + inc == 1_000_000_007 * k + small) by (nonlinear_arith)
            requires
                x == 1_000_000_007 * qx + h,
                y == 1_000_000_007 * qy + bn,
                k == 33 * qx - qy * out - 255,
                small == h * 33 + 1_000_000_007 * 255 - bn * out + inc,
        ;
        lemma_mod_multiples_vanish(k, small, 1_000_000_007);
    }
}

/// Multiplying a residue by the base and adding a byte gives the residue of
/// the same operation on the number itself.
proof fn lemma_residue_step(x: int, r: int, c: int)
    requires
        r == x % 1_000_000_007,
    ensures
        (r * 33 + c) % 1_000_000_007 == (x * 33 + c) % 1_000_000_007,
{
    let q = x / 1_000_000_007;
    assert(x == 1_000_000_007 * q + r);
    assert(x * 33 + c == 1_000_000_007 * (33 * q) + (r * 33 + c));
    lemma_mod_multiples_vanish(33 * q, r * 33 + c, 1_000_000_007);
}

proof fn lemma_repeats_earlier_is_stored(text: Seq<u8>, n: int, j: int)
    ensures
        repeats_earlier(text, n, j) <==> stored_before(text, n, j, stored_value(text, n, j)),
{
    if repeats_earlier(text, n, j) {
        let i = choose|i: int|
            0 <= i < j && window_hash(#[trigger] window_at(text, n, i)) == window_hash(
                window_at(text, n, j),
            );
        assert(stored_value(text, n, i) == stored_value(text, n, j));
    }
    if stored_before(text, n, j, stored_value(text, n, j)) {
        let i = choose|i: int|
            0 <= i < j && #[trigger] stored_value(text, n, i) == stored_value(text, n, j);
        assert(window_hash(window_at(text, n, i)) == window_hash(window_at(text, n, j)));
    }
}

/// Measures how repetitive `text` is: the number of its windows of `n` bytes
/// whose fingerprint equals that of an earlier window, over the length of
/// the text. A text no longer than one window has no repeated window, so its
/// ratio is zero.
///
/// The fingerprints are kept in a table of `SLOTS_PER_BYTE` slots per byte of
/// text, which has to be addressable.
pub fn compute_repetitions_rolling(text: &[u8], n: usize) -> (r: Ratio)
    requires
        text@.len() * SLOTS_PER_BYTE <= usize::MAX,
    ensures
        r.num == repeated_windows(text@, n as int),
        r.den == (if text@.len() == 0 { 1 } else { text@.len() }),
        r.is_proper(),
        text@.len() <= n ==> r.num == 0,
{
    let len: usize = text.len();
    if len <= n {
        return Ratio::of_counts(0, len);
    }
    let mut h: u64 = 0;
    let mut bn: u64 = 1;
    let mut i: usize = 0;
    while i < n
        invariant
            i <= n < len,
            len == text@.len(),
            h < HASH_MODULUS,
            bn < HASH_MODULUS,
            h == window_hash(window_at(text@, i as int, 0)),
            bn == base_power(i as nat) % 1_000_000_007,
        decreases n - i,
    {
        proof {
            let grown = window_at(text@, i + 1, 0);
            assert(grown.drop_last() =~= window_at(text@, i as int, 0));
            assert(grown.last() == text@[i as int]);
            assert(base_power((i + 1) as nat) == 33 * base_power(i as nat));
            lemma_residue_step(
                window_poly(window_at(text@, i as int, 0)),
                h as int,
                text@[i as int] as int,
            );
            lemma_residue_step(base_power(i as nat), bn as int, 0);
        }
        h = (h * HASH_BASE + text[i] as u64) % HASH_MODULUS;
        bn = (bn * HASH_BASE) % HASH_MODULUS;
        i += 1;
    }
    let size: usize = SLOTS_PER_BYTE * len;
    let mut table = FingerprintTable::new(size);
    let mut repeats: usize = 0;
    table.record((h + 1) as u32);
    proof {
        assert(stored_value(text@, n as int, 0) == (h + 1) as u32);
        assert(!repeats_earlier(text@, n as int, 0));
        assert(repeat_count(text@, n as int, 0) == 0);
        assert(repeat_count(text@, n as int, 1) == 0);
        assert forall|g: u32| g != 0 implies (table.holds(g) <==> stored_before(
            text@,
            n as int,
            1,
            g,
        )) by {
            if stored_before(text@, n as int, 1, g) {
                let w = choose|w: int| 0 <= w < 1 && #[trigger] stored_value(text@, n as int, w) == g;
                assert(w == 0);
            }
        }
    }
    let mut j: usize = 0;
    while j + n < len
        invariant
            len == text@.len(),
            n < len,
            j + n <= len,
            size == SLOTS_PER_BYTE * len,
            table.wf(),
            table.capacity() == size,
            table.used() <= j + 1,
            h < HASH_MODULUS,
            bn < HASH_MODULUS,
            h == window_hash(window_at(text@, n as int, j as int)),
            bn == base_power(n as nat) % 1_000_000_007,
            forall|g: u32|
                g != 0 ==> (table.holds(g) <==> stored_before(text@, n as int, j + 1, g)),
            repeats == repeat_count(text@, n as int, j + 1),
            repeats <= j,
        decreases len - j,
    {
        let out: u64 = text[j] as u64;
        let inc: u64 = text[j + n] as u64;
        proof {
            lemma_hash_roll(text@, n as int, j as int, h as int, bn as int);
            assert(bn * out <= 1_000_000_007 * 255) by (nonlinear_arith)
                requires
                    bn < 1_000_000_007,
                    out <= 255,
            ;
        }
        h = (h * HASH_BASE + HASH_MODULUS * 255 - bn * out + inc) % HASH_MODULUS;
        j += 1;
        let seen: bool = table.record((h + 1) as u32);
        proof {
            let f = stored_value(text@, n as int, j as int);
            assert(f == (h + 1) as u32);
            lemma_repeats_earlier_is_stored(text@, n as int, j as int);
            assert(seen == repeats_earlier(text@, n as int, j as int));
            assert forall|g: u32| g != 0 implies (table.holds(g) <==> stored_before(
                text@,
                n as int,
                j + 1,
                g,
            )) by {
                if stored_before(text@, n as int, j + 1, g) {
                    let w = choose|w: int|
                        0 <= w < j + 1 && #[trigger] stored_value(text@, n as int, w) == g;
                    if w < j {
                        assert(stored_before(text@, n as int, j as int, g));
                    }
                }
                if stored_before(text@, n as int, j as int, g) {
                    let w = choose|w: int|
                        0 <= w < j && #[trigger] stored_value(text@, n as int, w) == g;
                    assert(0 <= w < j + 1);
                }
            }
        }
        if seen {
            repeats += 1;
        }
    }
    Ratio::of_counts(repeats, len)
}

/// The `j`-th window has the same bytes as some earlier window.
pub open spec fn occurs_earlier(text: Seq<u8>, n: int, j: int) -> bool {
    exists|i: int| 0 <= i < j && #[trigger] window_at(text, n, i) == window_at(text, n, j)
}

/// How many of the first `m` windows have the bytes of an earlier one.
pub open spec fn exact_repeat_count(text: Seq<u8>, n: int, m: int) -> nat
    decreases m,
{
    if m <= 0 {
        0
    } else {
        exact_repeat_count(text, n, m - 1) + (if occurs_earlier(text, n, m - 1) {
            1nat
        } else {
            0nat
        })
    }
}

/// Tells whether the windows of `n` bytes that start at `i` and at `j` hold
/// the same bytes.
pub fn windows_equal(text: &[u8], n: usize, i: usize, j: usize) -> (same: bool)
    requires
        i + n <= text@.len(),
        j + n <= text@.len(),
    ensures
        same == (window_at(text@, n as int, i as int) == window_at(text@, n as int, j as int)),
{
    let len: usize = text.len();
    let mut k: usize = 0;
    while k < n
        invariant
            k <= n,
            len == text@.len(),
            i + n <= len,
            j + n <= len,
            window_at(text@, k as int, i as int) == window_at(text@, k as int, j as int),
        decreases n - k,
    {
        if text[i + k] != text[j + k] {
            proof {
                let a = window_at(text@, n as int, i as int);
                let b = window_at(text@, n as int, j as int);
                assert(a[k as int] == text@[i + k]);
                assert(b[k as int] == text@[j + k]);
            }
            return false;
        }
        proof {
            assert(window_at(text@, k + 1, i as int) =~= window_at(text@, k as int, i as int).push(
                text@[i + k],
            ));
            assert(window_at(text@, k + 1, j as int) =~= window_at(text@, k as int, j as int).push(
                text@[j + k],
            ));
        }
        k += 1;
    }
    true
}

/// Counts the windows of `n` bytes of `text` that hold the same bytes as an
/// earlier window, by comparing the windows themselves. The window that ends
/// with the last byte of the text is left out of the count, and a text no
/// longer than one window counts zero.
pub fn compute_repetitions(text: &[u8], n: usize) -> (count: usize)
    ensures
        count == (if text@.len() <= n {
            0
        } else {
            exact_repeat_count(text@, n as int, text@.len() - n)
        }),
{
    let len: usize = text.len();
    if len <= n {
        return 0;
    }
    let last: usize = len - n;
    let mut count: usize = 0;
    let mut j: usize = 0;
    while j < last
        invariant
            len == text@.len(),
            n < len,
            last == len - n,
            j <= last,
            count <= j,
            count == exact_repeat_count(text@, n as int, j as int),
        decreases last - j,
    {
        let mut found: bool = false;
        let mut i: usize = 0;
        while i < j && !found
            invariant
                len == text@.len(),
                last == len - n,
                i <= j < last,
                found ==> occurs_earlier(text@, n as int, j as int),
                !found ==> forall|t: int|
                    0 <= t < i ==> #[trigger] window_at(text@, n as int, t) != window_at(
                        text@,
                        n as int,
                        j as int,
                    ),
            decreases j - i + (if found { 0int } else { 1int }),
        {
            if windows_equal(text, n, i, j) {
                found = true;
            } else {
                i += 1;
            }
        }
        if found {
            count += 1;
        }
        j += 1;
    }
    count
}

/// The sum of the first `n` bytes of `data`.
pub open spec fn byte_sum(data: Seq<u8>, n: nat) -> int
    decreases n,
{
    if n == 0 {
        0
    } else {
        byte_sum(data, (n - 1) as nat) + data[n - 1] as int
    }
}

/// The sum, over the prefixes of `data` of 1 to `n` bytes, of one plus the
/// sum of the bytes of the prefix.
pub open spec fn checksum_sum(data: Seq<u8>, n: nat) -> int
    decreases n,
{
    if n == 0 {
        0
    } else {
        checksum_sum(data, (n - 1) as nat) + 1 + byte_sum(data, n)
    }
}

/// The two halves of the Adler-32 checksum of the first `n` bytes of `data`:
/// one plus the sum of the bytes, and the sum of that value over every
/// prefix, both modulo 65521.
pub fn init_adler_32(data: &[u8], n: usize) -> (r: (u32, u32))
    requires
        n <= data@.len(),
    ensures
        r.0 == (1 + byte_sum(data@, n as nat)) % 65521,
        r.1 == checksum_sum(data@, n as nat) % 65521,
{
    let mut a: u32 = 1;
    let mut b: u32 = 0;
    let mut i: usize = 0;
    while i < n
        invariant
            i <= n <= data@.len(),
            a < 65521,
            b < 65521,
            a == (1 + byte_sum(data@, i as nat)) % 65521,
            b == checksum_sum(data@, i as nat) % 65521,
        decreases n - i,
    {
        a = (a + data[i] as u32) % 65521;
        b = (b + a) % 65521;
        i += 1;
    }
    (a, b)
}

} // verus!
