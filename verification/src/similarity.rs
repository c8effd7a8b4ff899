use vstd::prelude::*;
use vstd::utf8::{encode_utf8, is_ascii_chars, is_char_boundary, valid_utf8, encode_utf8_valid_utf8};
use vstd::string::StringSliceAdditionalSpecFns;
use crate::text::{lemma_normal_form_of_ascii, normalized};
use crate::hash::normalize;

verus! {

/// Number of hash permutations in a signature.
pub const NUM_PERM: usize = 128;

/// Shingles are byte windows of this length.
pub const SHINGLE_SIZE: usize = 3;

/// The largest prime below 2^32; every permutation hash is taken modulo it.
pub const PRIME: u64 = 4294967291;

/// The UTF-8 bytes of the normal form of `text`.
pub open spec fn normalized_bytes(text: Seq<char>) -> Seq<u8> {
    encode_utf8(normalized(text))
}

/// The shingles of a normalized byte string: every window of `SHINGLE_SIZE`
/// bytes, or the whole string when it is shorter than one window.
pub open spec fn shingles(b: Seq<u8>) -> Seq<Seq<u8>> {
    if b.len() < 3 {
        seq![b]
    } else {
        Seq::new((b.len() - 2) as nat, |i: int| b.subrange(i, i + 3))
    }
}

/// Every shingle window of `b` starts and ends on a character boundary, so it
/// can be cut out of the string.
pub open spec fn sliceable(b: Seq<u8>) -> bool {
    b.len() < 3 || forall|i: int|
        #![trigger is_char_boundary(b, i)]
        0 <= i <= b.len() - 3 ==> is_char_boundary(b, i) && is_char_boundary(b, i + 3)
}

/// 32-bit FNV-1a of a byte string.
pub open spec fn fnv1a(bytes: Seq<u8>) -> u32
    decreases bytes.len(),
{
    if bytes.len() == 0 {
        2166136261u32
    } else {
        let h = fnv1a(bytes.drop_last());
        (((h ^ (bytes.last() as u32)) as nat * 16777619nat) % 0x1_0000_0000nat) as u32
    }
}

/// Multiplier of the `i`-th permutation: `(i * 1103515245 + 12345) mod 2^64 mod PRIME`.
pub open spec fn coef_a(i: int) -> u32 {
    ((((i * 1103515245) % 0x1_0000_0000_0000_0000 + 12345) % 0x1_0000_0000_0000_0000)
        % 4294967291) as u32
}

/// Offset of the `i`-th permutation:
/// `((i + 1000) * 6364136223846793005 + 1442695040888963407) mod 2^64 mod PRIME`.
pub open spec fn coef_b(i: int) -> u32 {
    (((((i + 1000) * 6364136223846793005) % 0x1_0000_0000_0000_0000 + 1442695040888963407)
        % 0x1_0000_0000_0000_0000) % 4294967291) as u32
}

/// The universal hash `(a * x + b) mod PRIME`.
pub open spec fn perm_hash(a: u32, b: u32, x: u32) -> u32 {
    ((a * x + b) % 4294967291) as u32
}

/// The `i`-th permutation applied to `x`.
pub open spec fn perm(i: int, x: u32) -> u32 {
    perm_hash(coef_a(i), coef_b(i), x)
}

/// The least value of permutation `i` over the hashes of the shingles `ws`,
/// starting from `u32::MAX`.
pub open spec fn min_perm(i: int, ws: Seq<Seq<u8>>) -> u32
    decreases ws.len(),
{
    if ws.len() == 0 {
        u32::MAX
    } else {
        let rest = min_perm(i, ws.drop_last());
        let v = perm(i, fnv1a(ws.last()));
        if v < rest {
            v
        } else {
            rest
        }
    }
}

/// The MinHash signature of a normalized byte string.
pub open spec fn minhash(b: Seq<u8>) -> Seq<u32> {
    Seq::new(NUM_PERM as nat, |i: int| min_perm(i, shingles(b)))
}

/// How many of the first `n` slots hold the same value in `a` and `b`.
pub open spec fn agree_count(a: Seq<u32>, b: Seq<u32>, n: int) -> nat
    decreases n,
{
    if n <= 0 {
        0
    } else {
        agree_count(a, b, n - 1) + if a[n - 1] == b[n - 1] {
            1nat
        } else {
            0nat
        }
    }
}

/// A MinHash signature for approximate Jaccard similarity.
#[derive(Debug)]
pub struct MinHashSignature {
    values: Vec<u32>,
}

impl MinHashSignature {
    #[verifier::type_invariant]
    spec fn has_all_slots(self) -> bool {
        self.values@.len() == NUM_PERM
    }

    /// The values of the signature, one per permutation.
    pub closed spec fn view(self) -> Seq<u32> {
        self.values@
    }
}

impl Clone for MinHashSignature {
    fn clone(&self) -> (r: Self)
        ensures
            r@ == self@,
    {
        proof {
            use_type_invariant(self);
        }
        MinHashSignature { values: self.values.clone() }
    }
}

/// A universal hash function `(a * x + b) % PRIME`.
struct HashFunc {
    a: u32,
    b: u32,
}

impl HashFunc {
    fn hash(&self, x: u32) -> (h: u32)
        ensures
            h == perm_hash(self.a, self.b, x),
    {
        let a = self.a as u64;
        let xx = x as u64;
        assert(a * xx <= 0xffff_ffff * 0xffff_ffff) by (nonlinear_arith)
            requires
                a <= 0xffff_ffff,
                xx <= 0xffff_ffff,
        ;
        ((a * xx + self.b as u64) % PRIME) as u32
    }
}

proof fn lemma_mod_wrap(s: int, m: int)
    requires
        m > 0,
        0 <= s < 2 * m,
    ensures
        s < m ==> s % m == s,
        s >= m ==> s % m == s - m,
{
    if s < m {
        vstd::arithmetic::div_mod::lemma_small_mod(s as nat, m as nat);
    } else {
        vstd::arithmetic::div_mod::lemma_small_mod((s - m) as nat, m as nat);
        vstd::arithmetic::div_mod::lemma_mod_sub_multiples_vanish(s, m);
    }
}

/// `x.wrapping_add(y)` is `(x + y) mod 2^64`.
proof fn lemma_wrapping_add(x: u64, y: u64)
    ensures
        vstd::wrapping::u64_specs::wrapping_add(x, y) == (x + y) % 0x1_0000_0000_0000_0000,
{
    lemma_mod_wrap(x + y, 0x1_0000_0000_0000_0000);
}

/// Multiplier of permutation `i`.
fn coef_a_of(i: u64) -> (a: u32)
    requires
        i < 128,
    ensures
        a == coef_a(i as int),
{
    let x = i.wrapping_mul(1103515245);
    proof {
        assert(i * 1103515245 < 0x1_0000_0000_0000_0000) by (nonlinear_arith)
            requires
                i < 128,
        ;
        lemma_mod_wrap(i * 1103515245, 0x1_0000_0000_0000_0000);
        lemma_wrapping_add(x, 12345);
    }
    let y = x.wrapping_add(12345);
    (y % PRIME) as u32
}

/// Offset of permutation `i`.
fn coef_b_of(i: u64) -> (b: u32)
    requires
        i < 128,
    ensures
        b == coef_b(i as int),
{
    let x = i.wrapping_add(1000);
    proof {
        lemma_mod_wrap(i + 1000, 0x1_0000_0000_0000_0000);
    }
    let y = x.wrapping_mul(6364136223846793005);
    proof {
        lemma_wrapping_add(y, 1442695040888963407);
    }
    let z = y.wrapping_add(1442695040888963407);
    (z % PRIME) as u32
}

proof fn lemma_multipliers_distinct(i: int, j: int)
    requires
        0 <= i < j < 128,
    ensures
        coef_a(i) != coef_a(j),
{
    let p = 4294967291int;
    let xi = i * 1103515245 + 12345;
    let xj = j * 1103515245 + 12345;
    assert(0 <= i * 1103515245 < 128 * 1103515245) by (nonlinear_arith)
        requires
            0 <= i < 128,
    ;
    assert(0 <= j * 1103515245 < 128 * 1103515245) by (nonlinear_arith)
        requires
            0 <= j < 128,
    ;
    vstd::arithmetic::div_mod::lemma_small_mod((i * 1103515245) as nat, 0x1_0000_0000_0000_0000nat);
    vstd::arithmetic::div_mod::lemma_small_mod((j * 1103515245) as nat, 0x1_0000_0000_0000_0000nat);
    vstd::arithmetic::div_mod::lemma_small_mod(xi as nat, 0x1_0000_0000_0000_0000nat);
    vstd::arithmetic::div_mod::lemma_small_mod(xj as nat, 0x1_0000_0000_0000_0000nat);
    vstd::arithmetic::div_mod::lemma_fundamental_div_mod(xi, p);
    vstd::arithmetic::div_mod::lemma_fundamental_div_mod(xj, p);
    vstd::arithmetic::div_mod::lemma_mod_bound(xi, p);
    vstd::arithmetic::div_mod::lemma_mod_bound(xj, p);
    if coef_a(i) == coef_a(j) {
        let qi = xi / p;
        let qj = xj / p;
        assert(xi % p == xj % p);
        assert((j - i) * 1103515245 == 4294967291 * (qj - qi)) by (nonlinear_arith)
            requires
                xi == p * qi + xi % p,
                xj == p * qj + xj % p,
                xi % p == xj % p,
                xi == i * 1103515245 + 12345,
                xj == j * 1103515245 + 12345,
                p == 4294967291,
        ;
        let d = j - i;
        let m = qj - qi;
        assert(0 < m < 33) by (nonlinear_arith)
            requires
                d * 1103515245 == 4294967291 * m,
                1 <= d < 128,
        ;
        assert(false) by (nonlinear_arith)
            requires
                d * 1103515245 == 4294967291 * m,
                1 <= d < 128,
                0 < m < 33,
        ;
    }
}

proof fn lemma_offsets_distinct(i: int, j: int)
    requires
        0 <= i < j < 128,
    ensures
        coef_b(i) != coef_b(j),
{
    let w = 0x1_0000_0000_0000_0000int;
    let p = 4294967291int;
    let c = 1442695040888963407int;
    let ui = (i + 1000) * 6364136223846793005;
    let uj = (j + 1000) * 6364136223846793005;
    vstd::arithmetic::div_mod::lemma_add_mod_noop(ui, c, w);
    vstd::arithmetic::div_mod::lemma_add_mod_noop(uj, c, w);
    vstd::arithmetic::div_mod::lemma_small_mod(c as nat, w as nat);
    vstd::arithmetic::div_mod::lemma_mod_twice(ui, w);
    vstd::arithmetic::div_mod::lemma_mod_twice(uj, w);
    let yi = (ui + c) % w;
    let yj = (uj + c) % w;
    vstd::arithmetic::div_mod::lemma_fundamental_div_mod(ui + c, w);
    vstd::arithmetic::div_mod::lemma_fundamental_div_mod(uj + c, w);
    vstd::arithmetic::div_mod::lemma_mod_bound(ui + c, w);
    vstd::arithmetic::div_mod::lemma_mod_bound(uj + c, w);
    vstd::arithmetic::div_mod::lemma_fundamental_div_mod(yi, p);
    vstd::arithmetic::div_mod::lemma_fundamental_div_mod(yj, p);
    vstd::arithmetic::div_mod::lemma_mod_bound(yi, p);
    vstd::arithmetic::div_mod::lemma_mod_bound(yj, p);
    if coef_b(i) == coef_b(j) {
        assert(yi % p == yj % p);
        let ki = (ui + c) / w;
        let kj = (uj + c) / w;
        let qi = yi / p;
        let qj = yj / p;
        let d = j - i;
        let kd = kj - ki;
        let m0 = qj - qi;
        assert(uj - ui == d * 6364136223846793005) by (nonlinear_arith)
            requires
                ui == (i + 1000) * 6364136223846793005,
                uj == (j + 1000) * 6364136223846793005,
                d == j - i,
        ;
        assert(kd * 0x1_0000_0000_0000_0000 < d * 6364136223846793005 + 0x1_0000_0000_0000_0000)
            by (nonlinear_arith)
            requires
                uj - ui == d * 6364136223846793005,
                ui + c == w * ki + yi,
                uj + c == w * kj + yj,
                0 <= yi < w,
                0 <= yj < w,
                kd == kj - ki,
                w == 0x1_0000_0000_0000_0000,
        ;
        assert(kd * 0x1_0000_0000_0000_0000 > d * 6364136223846793005 - 0x1_0000_0000_0000_0000)
            by (nonlinear_arith)
            requires
                uj - ui == d * 6364136223846793005,
                ui + c == w * ki + yi,
                uj + c == w * kj + yj,
                0 <= yi < w,
                0 <= yj < w,
                kd == kj - ki,
                w == 0x1_0000_0000_0000_0000,
        ;
        assert(d * 6364136223846793005 - kd * 0x1_0000_0000_0000_0000 == 4294967291 * m0)
            by (nonlinear_arith)
            requires
                uj - ui == d * 6364136223846793005,
                ui + c == w * ki + yi,
                uj + c == w * kj + yj,
                yi == p * qi + yi % p,
                yj == p * qj + yj % p,
                yi % p == yj % p,
                kd == kj - ki,
                m0 == qj - qi,
                w == 0x1_0000_0000_0000_0000,
                p == 4294967291,
        ;
        lemma_no_offset_collision(d, kd, m0);
        assert(false);
    }
}

proof fn lemma_no_offset_collision(d: int, kd: int, m0: int)
    requires
        1 <= d < 128,
        kd * 0x1_0000_0000_0000_0000 < d * 6364136223846793005 + 0x1_0000_0000_0000_0000,
        kd * 0x1_0000_0000_0000_0000 > d * 6364136223846793005 - 0x1_0000_0000_0000_0000,
    ensures
        d * 6364136223846793005 - kd * 0x1_0000_0000_0000_0000 != 4294967291 * m0,
{
    assert(0 <= kd <= 44);
    if d * 6364136223846793005 - kd * 0x1_0000_0000_0000_0000 == 4294967291 * m0 {
        // 6364136223846793005 = 1481765935 * p + 103760920 and 2^64 = 4294967301 * p + 25.
        let m1 = m0 - d * 1481765935 + kd * 4294967301;
        assert(d * 103760920 - kd * 25 == 4294967291 * m1);
        assert(0 <= m1 < 4);
    }
}

/// The `NUM_PERM` slots of a signature use pairwise distinct permutations:
/// two slots never share a multiplier or an offset, so they hash the same
/// shingle value differently. The multiplier of slot `i` is
/// `(i * 1103515245 + 12345) mod PRIME` (12345 for slot 0, 1103527590 for
/// slot 1).
pub proof fn lemma_permutations_distinct(i: int, j: int)
    requires
        0 <= i < NUM_PERM,
        0 <= j < NUM_PERM,
        i != j,
    ensures
        coef_a(i) != coef_a(j),
        coef_b(i) != coef_b(j),
        perm(i, 0) != perm(j, 0),
        coef_a(i) == (i * 1103515245 + 12345) % 4294967291,
{
    if i < j {
        lemma_multipliers_distinct(i, j);
        lemma_offsets_distinct(i, j);
    } else {
        lemma_multipliers_distinct(j, i);
        lemma_offsets_distinct(j, i);
    }
    lemma_multiplier_value(i);
    lemma_hash_of_zero(coef_a(i), coef_b(i));
    lemma_hash_of_zero(coef_a(j), coef_b(j));
}

proof fn lemma_multiplier_value(i: int)
    requires
        0 <= i < 128,
    ensures
        coef_a(i) == (i * 1103515245 + 12345) % 4294967291,
{
    assert(0 <= i * 1103515245 < 128 * 1103515245) by (nonlinear_arith)
        requires
            0 <= i < 128,
    ;
    vstd::arithmetic::div_mod::lemma_small_mod((i * 1103515245) as nat, 0x1_0000_0000_0000_0000nat);
    vstd::arithmetic::div_mod::lemma_small_mod((i * 1103515245 + 12345) as nat, 0x1_0000_0000_0000_0000nat);
}

proof fn lemma_hash_of_zero(a: u32, b: u32)
    requires
        b < 4294967291,
    ensures
        perm_hash(a, b, 0) == b,
{
    assert(a * 0 == 0) by (nonlinear_arith);
    vstd::arithmetic::div_mod::lemma_small_mod(b as nat, 4294967291nat);
}

/// The fixed family of `NUM_PERM` permutations.
fn hash_funcs() -> (funcs: Vec<HashFunc>)
    ensures
        funcs@.len() == NUM_PERM,
        forall|i: int|
            0 <= i < NUM_PERM ==> #[trigger] funcs@[i].a == coef_a(i) && funcs@[i].b == coef_b(i),
{
    let mut funcs: Vec<HashFunc> = Vec::new();
    let mut i: u64 = 0;
    while i < 128
        invariant
            i <= 128,
            funcs@.len() == i,
            forall|j: int| 0 <= j < i ==> #[trigger] funcs@[j].a == coef_a(j) && funcs@[j].b == coef_b(j),
        decreases 128 - i,
    {
        let a = coef_a_of(i);
        let b = coef_b_of(i);
        funcs.push(HashFunc { a, b });
        i = i + 1;
    }
    funcs
}

/// 32-bit FNV-1a over the bytes of `s`.
fn shingle_hash(s: &str) -> (h: u32)
    ensures
        h == fnv1a(encode_utf8(s@)),
{
    let bytes = s.as_bytes();
    let mut h: u32 = 2166136261;
    let mut i: usize = 0;
    while i < bytes.len()
        invariant
            bytes@ == encode_utf8(s@),
            i <= bytes@.len(),
            h == fnv1a(bytes@.take(i as int)),
        decreases bytes@.len() - i,
    {
        assert(bytes@.take(i + 1).drop_last() =~= bytes@.take(i as int));
        h = h ^ (bytes[i] as u32);
        h = h.wrapping_mul(16777619);
        i = i + 1;
    }
    assert(bytes@.take(i as int) =~= bytes@);
    h
}

proof fn lemma_window_boundary(b: Seq<u8>, i: int)
    requires
        valid_utf8(b),
        0 <= i,
        i + 3 <= b.len(),
        is_char_boundary(b, i),
        is_char_boundary(b, i + 3),
    ensures
        valid_utf8(b.subrange(i, b.len() as int)),
        is_char_boundary(b.subrange(i, b.len() as int), 3),
{
    broadcast use vstd::utf8::valid_utf8_split, vstd::utf8::is_char_boundary_start_end_of_seq,
        vstd::utf8::is_char_boundary_iff_not_is_continuation_byte;

    let sub = b.subrange(i, b.len() as int);
    assert(valid_utf8(sub));
    if i + 3 == b.len() {
        assert(is_char_boundary(sub, sub.len() as int));
    } else {
        assert(is_char_boundary(b, i + 3) <==> !vstd::utf8::is_continuation_byte(b[i + 3]));
        assert(sub[3] == b[i + 3]);
        assert(is_char_boundary(sub, 3) <==> !vstd::utf8::is_continuation_byte(sub[3]));
    }
}

/// The shingles of the normal form of `text`, each as a string.
fn shingle(text: &str) -> (r: Vec<String>)
    requires
        sliceable(normalized_bytes(text@)),
    ensures
        r@.len() == shingles(normalized_bytes(text@)).len(),
        forall|k: int|
            0 <= k < r@.len() ==> encode_utf8(#[trigger] r@[k]@) == shingles(
                normalized_bytes(text@),
            )[k],
{
    let normalized = normalize(text);
    let s = normalized.as_str();
    let n = s.as_bytes().len();
    let ghost b = s.spec_bytes();
    if n < SHINGLE_SIZE {
        let mut r: Vec<String> = Vec::new();
        r.push(normalized);
        return r;
    }
    proof {
        encode_utf8_valid_utf8(normalized@);
    }
    let mut r: Vec<String> = Vec::new();
    let mut i: usize = 0;
    while i <= n - SHINGLE_SIZE
        invariant
            b == normalized_bytes(text@),
            b == s.spec_bytes(),
            n == b.len(),
            n >= 3,
            valid_utf8(b),
            sliceable(b),
            i <= n - 2,
            r@.len() == i,
            forall|k: int| 0 <= k < i ==> encode_utf8(#[trigger] r@[k]@) == b.subrange(k, k + 3),
        decreases n - i,
    {
        proof {
            assert(is_char_boundary(b, i as int));
            lemma_window_boundary(b, i as int);
        }
        let (_, rest) = s.split_at(i);
        let (piece, _) = rest.split_at(SHINGLE_SIZE);
        assert(piece.spec_bytes() =~= b.subrange(i as int, i + 3));
        r.push(piece.to_owned());
        i = i + 1;
    }
    r
}

/// A query whose normal form is ASCII can be cut into shingles whatever its
/// length: every byte of its UTF-8 form starts a character. So can every
/// ASCII query, whose normal form is ASCII.
pub proof fn lemma_ascii_sliceable(q: Seq<char>)
    ensures
        is_ascii_chars(normalized(q)) ==> sliceable(normalized_bytes(q)),
        is_ascii_chars(q) ==> sliceable(normalized_bytes(q)),
{
    broadcast use vstd::utf8::is_char_boundary_iff_not_is_continuation_byte,
        vstd::utf8::is_char_boundary_start_end_of_seq;

    if is_ascii_chars(q) {
        lemma_normal_form_of_ascii(q);
    }
    let w = normalized(q);
    let b = normalized_bytes(q);
    if is_ascii_chars(w) {
        vstd::utf8::is_ascii_chars_encode_utf8(w);
        encode_utf8_valid_utf8(w);
        assert forall|k: int| 0 <= k <= b.len() implies is_char_boundary(b, k) by {
            if k < b.len() {
                assert(w[k] <= '\u{7f}');
                assert(b[k] == w[k] as u8);
                assert(b[k] < 0x80);
                assert(!vstd::utf8::is_continuation_byte(b[k]));
            } else {
                assert(is_char_boundary(b, b.len() as int));
            }
        }
    }
}

/// Whether every shingle window of the normal form of `text` lies on character
/// boundaries, that is, whether `signature` accepts `text`.
pub fn shingles_sliceable(text: &str) -> (r: bool)
    ensures
        r == sliceable(normalized_bytes(text@)),
{
    let norm = normalize(text);
    let s = norm.as_str();
    let n = s.as_bytes().len();
    if n < SHINGLE_SIZE {
        return true;
    }
    let ghost b = s.spec_bytes();
    proof {
        encode_utf8_valid_utf8(norm@);
    }
    let mut i: usize = 0;
    while i <= n - SHINGLE_SIZE
        invariant
            b == normalized_bytes(text@),
            b == s.spec_bytes(),
            valid_utf8(b),
            n == b.len(),
            n >= 3,
            i <= n - 2,
            forall|j: int|
                #![trigger is_char_boundary(b, j)]
                0 <= j < i ==> is_char_boundary(b, j) && is_char_boundary(b, j + 3),
        decreases n - i,
    {
        if !s.is_char_boundary(i) || !s.is_char_boundary(i + SHINGLE_SIZE) {
            return false;
        }
        assert(is_char_boundary(b, i as int) && is_char_boundary(b, i + 3));
        i = i + 1;
    }
    true
}

/// Generate a MinHash signature from the shingles of `text`.
pub fn signature(text: &str) -> (sig: MinHashSignature)
    requires
        sliceable(normalized_bytes(text@)),
    ensures
        sig@ == minhash(normalized_bytes(text@)),
{
    let pieces = shingle(text);
    let funcs = hash_funcs();
    let ghost ws = shingles(normalized_bytes(text@));
    let mut sig: Vec<u32> = vec![u32::MAX; NUM_PERM];
    let mut k: usize = 0;
    while k < pieces.len()
        invariant
            k <= pieces@.len(),
            pieces@.len() == ws.len(),
            forall|m: int| 0 <= m < pieces@.len() ==> encode_utf8(#[trigger] pieces@[m]@) == ws[m],
            funcs@.len() == NUM_PERM,
            forall|i: int|
                0 <= i < NUM_PERM ==> #[trigger] funcs@[i].a == coef_a(i) && funcs@[i].b == coef_b(i),
            sig@.len() == NUM_PERM,
            forall|j: int| 0 <= j < NUM_PERM ==> #[trigger] sig@[j] == min_perm(j, ws.take(k as int)),
        decreases pieces@.len() - k,
    {
        let h = shingle_hash(pieces[k].as_str());
        assert(ws.take(k + 1).drop_last() =~= ws.take(k as int));
        assert(ws.take(k + 1).last() == ws[k as int]);
        let mut i: usize = 0;
        while i < NUM_PERM
            invariant
                k < ws.len(),
                h == fnv1a(ws[k as int]),
                ws.take(k + 1).drop_last() == ws.take(k as int),
                ws.take(k + 1).last() == ws[k as int],
                i <= NUM_PERM,
                funcs@.len() == NUM_PERM,
                forall|i: int|
                    0 <= i < NUM_PERM ==> #[trigger] funcs@[i].a == coef_a(i) && funcs@[i].b
                        == coef_b(i),
                sig@.len() == NUM_PERM,
                forall|j: int| 0 <= j < i ==> #[trigger] sig@[j] == min_perm(j, ws.take(k + 1)),
                forall|j: int|
                    i <= j < NUM_PERM ==> #[trigger] sig@[j] == min_perm(j, ws.take(k as int)),
            decreases NUM_PERM - i,
        {
            let v = funcs[i].hash(h);
            if v < sig[i] {
                sig.set(i, v);
            }
            i = i + 1;
        }
        k = k + 1;
    }
    assert(ws.take(k as int) =~= ws);
    if pieces.len() == 0 {
        sig = vec![0; NUM_PERM];
    }
    let r = MinHashSignature { values: sig };
    assert(r@ =~= minhash(normalized_bytes(text@)));
    r
}

/// Number of permutations on which the two signatures hold the same value;
/// the Jaccard estimate is this count divided by `NUM_PERM`.
pub fn match_count(a: &MinHashSignature, b: &MinHashSignature) -> (n: u32)
    ensures
        n == agree_count(a@, b@, NUM_PERM as int),
{
    proof {
        use_type_invariant(a);
        use_type_invariant(b);
    }
    let mut n: u32 = 0;
    let mut i: usize = 0;
    while i < NUM_PERM
        invariant
            a.values@.len() == NUM_PERM,
            b.values@.len() == NUM_PERM,
            i <= NUM_PERM,
            n == agree_count(a@, b@, i as int),
            n <= i,
        decreases NUM_PERM - i,
    {
        if a.values[i] == b.values[i] {
            n = n + 1;
        }
        i = i + 1;
    }
    n
}

/// A signature agrees with itself in every slot, so identical texts have an
/// estimated similarity of exactly one.
pub proof fn lemma_agreement_reflexive(a: Seq<u32>, n: int)
    requires
        0 <= n,
    ensures
        agree_count(a, a, n) == n,
    decreases n,
{
    if n > 0 {
        lemma_agreement_reflexive(a, n - 1);
    }
}

/// The estimate does not depend on the order of the two signatures.
pub proof fn lemma_agreement_symmetric(a: Seq<u32>, b: Seq<u32>, n: int)
    ensures
        agree_count(a, b, n) == agree_count(b, a, n),
    decreases n,
{
    if n > 0 {
        lemma_agreement_symmetric(a, b, n - 1);
    }
}

/// At most every slot agrees, so the estimate never exceeds one.
pub proof fn lemma_agreement_bounded(a: Seq<u32>, b: Seq<u32>, n: int)
    ensures
        agree_count(a, b, n) <= if n < 0 { 0 } else { n },
    decreases n,
{
    if n > 0 {
        lemma_agreement_bounded(a, b, n - 1);
    }
}

/// Each slot holds the least value of its permutation over the shingle
/// hashes: no shingle hashes below it, and, where there is a shingle, one
/// hashes to it.
pub proof fn lemma_slot_is_minimum(i: int, ws: Seq<Seq<u8>>)
    ensures
        forall|k: int| 0 <= k < ws.len() ==> min_perm(i, ws) <= perm(i, fnv1a(#[trigger] ws[k])),
        ws.len() > 0 ==> exists|k: int| 0 <= k < ws.len() && min_perm(i, ws) == perm(i, fnv1a(#[trigger] ws[k])),
    decreases ws.len(),
{
    if ws.len() > 0 {
        let rest = ws.drop_last();
        lemma_slot_is_minimum(i, rest);
        assert forall|k: int| 0 <= k < ws.len() implies min_perm(i, ws) <= perm(i, fnv1a(#[trigger] ws[k])) by {
            if k < ws.len() - 1 {
                assert(ws[k] == rest[k]);
            }
        }
        let last = ws.len() - 1;
        assert(ws[last] == ws.last());
        if min_perm(i, ws) != perm(i, fnv1a(ws[last])) {
            let k = choose|k: int| 0 <= k < rest.len() && min_perm(i, rest) == perm(i, fnv1a(#[trigger] rest[k]));
            assert(ws[k] == rest[k]);
        }
    }
}

/// Texts with the same normal form (the same words, whatever the whitespace
/// between them, and the same letters up to case) have the same signature.
pub proof fn lemma_signature_of_normal_form(t1: Seq<char>, t2: Seq<char>)
    requires
        normalized(t1) == normalized(t2),
    ensures
        minhash(normalized_bytes(t1)) == minhash(normalized_bytes(t2)),
{
}

} // verus!
