//! Shingling of strings and MinHash signatures over the shingles.
use vstd::prelude::*;
use vstd::utf8::*;
use vstd::string::StringSliceAdditionalSpecFns;

verus! {

broadcast use vstd::slice::group_slice_axioms;

/// Number of windows of width `k` in a sequence of `n` items.
pub open spec fn shingle_count(n: int, k: int) -> int {
    if k > n {
        0
    } else {
        n - k + 1
    }
}

/// The windows `[i, i + k)` of `bytes`, in order.
pub open spec fn shingle_windows(bytes: Seq<u8>, k: int) -> Seq<Seq<u8>> {
    Seq::new(shingle_count(bytes.len() as int, k) as nat, |i: int| bytes.subrange(i, i + k))
}

/// The UTF-8 bytes of each token.
pub open spec fn token_bytes(tokens: Seq<String>) -> Seq<Seq<u8>> {
    tokens.map_values(|t: String| encode_utf8(t@))
}

/// Appending one ASCII character to an ASCII text adds exactly one window of width `k`
/// (for `1 <= k <= ` the new length), the last one, and keeps the earlier windows.
pub proof fn lemma_appended_char_adds_last_shingle(s: Seq<char>, c: char, k: int)
    requires
        is_ascii_chars(s),
        '\0' <= c <= '\u{7f}',
        1 <= k <= s.len() + 1,
    ensures
        shingle_windows(encode_utf8(s.push(c)), k) == shingle_windows(encode_utf8(s), k).push(
            encode_utf8(s.push(c)).subrange(s.len() + 1 - k, s.len() + 1int),
        ),
{
    let t = s.push(c);
    assert(is_ascii_chars(t)) by {
        assert forall|i| 0 <= i < t.len() implies '\0' <= #[trigger] t[i] <= '\u{7f}' by {
            if i < s.len() {
                assert(t[i] == s[i]);
            }
        }
    }
    is_ascii_chars_encode_utf8(s);
    is_ascii_chars_encode_utf8(t);
    let bs = encode_utf8(s);
    let bt = encode_utf8(t);
    assert(bt =~= bs.push(c as u8)) by {
        assert forall|i| 0 <= i < bt.len() implies bt[i] == bs.push(c as u8)[i] by {
            assert(t[i] as u8 == bt[i]);
            if i < s.len() {
                assert(s[i] as u8 == bs[i]);
                assert(t[i] == s[i]);
            }
        }
    }
    let lhs = shingle_windows(bt, k);
    let rhs = shingle_windows(bs, k).push(bt.subrange(s.len() + 1 - k, s.len() + 1int));
    assert(lhs.len() == rhs.len());
    assert forall|i| 0 <= i < lhs.len() implies lhs[i] == rhs[i] by {
        if i < lhs.len() - 1 {
            assert(lhs[i] =~= rhs[i]);
        }
    }
    assert(lhs =~= rhs);
}

/// Every window `[i, i + k)` of the UTF-8 bytes starts and ends on a character boundary,
/// so that it can be cut out of the string.
pub open spec fn windows_on_char_boundaries(bytes: Seq<u8>, k: int) -> bool {
    forall|i: int|
        0 <= i && i + k <= bytes.len() ==> #[trigger] is_char_boundary(bytes, i)
            && is_char_boundary(bytes, i + k)
}

/// The bytes `[from, to)` of a valid UTF-8 sequence, cut on two character boundaries,
/// lie on a boundary of the suffix that starts at `from`.
proof fn lemma_suffix_boundary(bytes: Seq<u8>, from: int, to: int)
    requires
        valid_utf8(bytes),
        0 <= from <= to <= bytes.len(),
        is_char_boundary(bytes, from),
        is_char_boundary(bytes, to),
    ensures
        valid_utf8(bytes.subrange(from, bytes.len() as int)),
        is_char_boundary(bytes.subrange(from, bytes.len() as int), to - from),
{
    let rest = bytes.subrange(from, bytes.len() as int);
    valid_utf8_split(bytes, from);
    if to == bytes.len() {
        is_char_boundary_start_end_of_seq(rest);
        assert(rest.len() == to - from);
    } else {
        is_char_boundary_iff_not_is_continuation_byte(rest, to - from);
        is_char_boundary_iff_not_is_continuation_byte(bytes, to);
        assert(rest[to - from] == bytes[to]);
    }
}

/// Takes a String and returns the overlapping tokens of `k` bytes, in order.
///
/// `shingle_string("Hello", 2)` gives `["He", "el", "ll", "lo"]`. Windows are cut by byte
/// position, so every window has to start and end on a character boundary.
pub fn shingle_string(input_string: String, k: usize) -> (tokens: Vec<String>)
    requires
        windows_on_char_boundaries(encode_utf8(input_string@), k as int),
    ensures
        tokens@.len() == shingle_count(encode_utf8(input_string@).len() as int, k as int),
        forall|i: int|
            0 <= i < tokens@.len() ==> encode_utf8(#[trigger] tokens@[i]@) == encode_utf8(
                input_string@,
            ).subrange(i, i + k),
        token_bytes(tokens@) == shingle_windows(encode_utf8(input_string@), k as int),
{
    let ghost bytes = encode_utf8(input_string@);
    let mut tokens: Vec<String> = Vec::new();
    let s: &str = input_string.as_str();
    let len = s.as_bytes().len();
    proof {
        encode_utf8_valid_utf8(input_string@);
    }
    assert(s.spec_bytes() == bytes);
    if k > len {
        assert(token_bytes(tokens@) =~= shingle_windows(bytes, k as int));
        return tokens;
    }
    let last = len - k;
    let mut i: usize = 0;
    loop
        invariant_except_break
            tokens@.len() == i,
        invariant
            s.spec_bytes() == bytes,
            valid_utf8(bytes),
            len == bytes.len(),
            last == len - k,
            i <= last,
            windows_on_char_boundaries(bytes, k as int),
            forall|j: int|
                0 <= j < tokens@.len() ==> encode_utf8(#[trigger] tokens@[j]@) == bytes.subrange(j, j + k),
        ensures
            tokens@.len() == last + 1,
            forall|j: int|
                0 <= j < tokens@.len() ==> encode_utf8(#[trigger] tokens@[j]@) == bytes.subrange(
                    j,
                    j + k,
                ),
        decreases last - i,
    {
        assert(is_char_boundary(bytes, i as int));
        proof {
            lemma_suffix_boundary(bytes, i as int, i + k);
        }
        let (_head, rest) = s.split_at(i);
        let (window, _tail) = rest.split_at(k);
        assert(window.spec_bytes() =~= bytes.subrange(i as int, i + k));
        let token = window.to_owned();
        tokens.push(token);
        if i == last {
            break ;
        }
        i = i + 1;
    }
    assert(token_bytes(tokens@) =~= shingle_windows(bytes, k as int));
    tokens
}

/// The value a signature slot keeps when no token lowers it.
pub const UNSEEN_SLOT: u64 = 999_999;

/// The 64-bit XXH3 digest (seed 0) of the UTF-8 bytes of a text.
pub uninterp spec fn xxh3_digest(text: Seq<char>) -> u64;

/// Calls `xxhash_rust::xxh3::xxh3_64` on the UTF-8 bytes of `input`.
/// Trusted: the digest depends on the text alone and is named `xxh3_digest`; nothing more of
/// the hash algorithm is stated.
#[verifier::external_body]
fn hash_string(input: &str) -> (digest: u64)
    ensures
        digest == xxh3_digest(input@),
{
    xxhash_rust::xxh3::xxh3_64(input.as_bytes())
}

/// The XXH3 digest of each token, in order.
pub fn token_hashes(tokens: &Vec<String>) -> (hashes: Vec<u64>)
    ensures
        hashes@.len() == tokens@.len(),
        forall|t: int| 0 <= t < tokens@.len() ==> hashes@[t] == xxh3_digest(#[trigger] tokens@[t]@),
{
    let mut hashes: Vec<u64> = Vec::new();
    let mut t: usize = 0;
    while t < tokens.len()
        invariant
            t <= tokens@.len(),
            hashes@.len() == t,
            forall|j: int| 0 <= j < t ==> hashes@[j] == xxh3_digest(#[trigger] tokens@[j]@),
        decreases tokens@.len() - t,
    {
        let digest = hash_string(tokens[t].as_str());
        hashes.push(digest);
        t = t + 1;
    }
    hashes
}

/// The smallest of `values`, or `UNSEEN_SLOT` where all are larger or there are none.
pub open spec fn slot_minimum(values: Seq<u64>) -> u64
    decreases values.len(),
{
    if values.len() == 0 {
        UNSEEN_SLOT
    } else {
        let rest = slot_minimum(values.drop_last());
        if rest > values.last() {
            values.last()
        } else {
            rest
        }
    }
}

/// The MinHash signature: slot `i` is the least bucket value that hash function `i` gives any
/// token, starting from `UNSEEN_SLOT`. Row `i` of `token_buckets` holds the bucket value of
/// each token under hash function `i`.
pub fn compute_hash(token_buckets: &Vec<Vec<u64>>) -> (signature: Vec<u64>)
    ensures
        signature@.len() == token_buckets@.len(),
        forall|i: int|
            0 <= i < signature@.len() ==> signature@[i] == slot_minimum(
                #[trigger] token_buckets@[i]@,
            ),
{
    let mut signature: Vec<u64> = Vec::new();
    let mut i: usize = 0;
    while i < token_buckets.len()
        invariant
            i <= token_buckets@.len(),
            signature@.len() == i,
            forall|j: int|
                0 <= j < i ==> signature@[j] == slot_minimum(#[trigger] token_buckets@[j]@),
        decreases token_buckets@.len() - i,
    {
        let row = &token_buckets[i];
        let mut least: u64 = UNSEEN_SLOT;
        let mut t: usize = 0;
        while t < row.len()
            invariant
                t <= row@.len(),
                least == slot_minimum(row@.subrange(0, t as int)),
            decreases row@.len() - t,
        {
            assert(row@.subrange(0, t + 1).drop_last() =~= row@.subrange(0, t as int));
            if least > row[t] {
                least = row[t];
            }
            t = t + 1;
        }
        assert(row@.subrange(0, row@.len() as int) =~= row@);
        signature.push(least);
        i = i + 1;
    }
    signature
}

/// Number of positions below `n` at which `a` and `b` hold the same value.
pub open spec fn matches_below(a: Seq<u64>, b: Seq<u64>, n: int) -> nat
    decreases n,
{
    if n <= 0 {
        0
    } else {
        matches_below(a, b, n - 1) + if a[n - 1] == b[n - 1] {
            1nat
        } else {
            0nat
        }
    }
}

/// Number of slots, over the length both signatures have, on which they agree.
pub open spec fn matching_slots(a: Seq<u64>, b: Seq<u64>) -> nat {
    matches_below(a, b, if a.len() <= b.len() { a.len() as int } else { b.len() as int })
}

/// The similarity of two signatures: the number of slots on which they agree, out of
/// `num_hashes`.
pub fn compare_hash(vec_a: Vec<u64>, vec_b: Vec<u64>, num_hashes: usize) -> (similarity:
    crate::score::Fraction)
    ensures
        similarity.num == matching_slots(vec_a@, vec_b@),
        similarity.den == num_hashes,
{
    let n = if vec_a.len() <= vec_b.len() {
        vec_a.len()
    } else {
        vec_b.len()
    };
    let mut matching: usize = 0;
    let mut i: usize = 0;
    while i < n
        invariant
            n <= vec_a@.len(),
            n <= vec_b@.len(),
            i <= n,
            matching == matches_below(vec_a@, vec_b@, i as int),
            matching <= i,
        decreases n - i,
    {
        if vec_a[i] == vec_b[i] {
            matching = matching + 1;
        }
        i = i + 1;
    }
    crate::score::Fraction { num: matching, den: num_hashes }
}

/// A signature slot is no larger than any bucket value of its row, nor than `UNSEEN_SLOT`, and
/// is one of them.
pub proof fn lemma_slot_minimum_is_least(values: Seq<u64>)
    ensures
        slot_minimum(values) <= UNSEEN_SLOT,
        forall|j: int| 0 <= j < values.len() ==> slot_minimum(values) <= #[trigger] values[j],
        slot_minimum(values) == UNSEEN_SLOT || exists|j: int|
            0 <= j < values.len() && #[trigger] values[j] == slot_minimum(values),
    decreases values.len(),
{
    if values.len() > 0 {
        let rest = values.drop_last();
        lemma_slot_minimum_is_least(rest);
        assert forall|j: int| 0 <= j < values.len() implies slot_minimum(values) <= #[trigger] values[j] by {
            if j < values.len() - 1 {
                assert(values[j] == rest[j]);
            }
        }
        if slot_minimum(values) != UNSEEN_SLOT {
            if slot_minimum(values) == values.last() {
                assert(values[values.len() - 1] == slot_minimum(values));
            } else {
                let j = choose|j: int| 0 <= j < rest.len() && #[trigger] rest[j] == slot_minimum(rest);
                assert(values[j] == rest[j]);
            }
        }
    }
}

proof fn lemma_matches_below_symmetric(a: Seq<u64>, b: Seq<u64>, n: int)
    ensures
        matches_below(a, b, n) == matches_below(b, a, n),
    decreases n,
{
    if n > 0 {
        lemma_matches_below_symmetric(a, b, n - 1);
    }
}

proof fn lemma_matches_below_bounded(a: Seq<u64>, b: Seq<u64>, n: int)
    ensures
        n >= 0 ==> matches_below(a, b, n) <= n,
        n >= 0 ==> (matches_below(a, b, n) == n <==> forall|i: int| 0 <= i < n ==> a[i] == b[i]),
    decreases n,
{
    if n > 0 {
        lemma_matches_below_bounded(a, b, n - 1);
    }
}

/// The similarity of two signatures does not depend on the order in which they are compared.
pub proof fn lemma_compare_hash_symmetric(a: Seq<u64>, b: Seq<u64>)
    ensures
        matching_slots(a, b) == matching_slots(b, a),
{
    lemma_matches_below_symmetric(a, b, if a.len() <= b.len() { a.len() as int } else { b.len() as int });
}

/// Two signatures agree on at most as many slots as the shorter one has, and on all of them
/// exactly when that one is a prefix of the other.
pub proof fn lemma_matching_slots_bounded(a: Seq<u64>, b: Seq<u64>)
    ensures
        matching_slots(a, b) <= a.len(),
        matching_slots(a, b) <= b.len(),
        a.len() <= b.len() ==> (matching_slots(a, b) == a.len() <==> a == b.subrange(0, a.len() as int)),
{
    let n = if a.len() <= b.len() { a.len() as int } else { b.len() as int };
    lemma_matches_below_bounded(a, b, n);
    if a.len() <= b.len() {
        if matching_slots(a, b) == a.len() {
            assert(a =~= b.subrange(0, a.len() as int));
        }
        if a == b.subrange(0, a.len() as int) {
            assert forall|i: int| 0 <= i < n implies a[i] == b[i] by {
                assert(a[i] == b.subrange(0, a.len() as int)[i]);
            }
        }
    }
}

/// A signature agrees with itself on every slot.
pub proof fn lemma_compare_hash_self(a: Seq<u64>)
    ensures
        matching_slots(a, a) == a.len(),
{
    lemma_matches_below_bounded(a, a, a.len() as int);
}

/// A row whose values include all values of another row gives a slot no larger.
pub proof fn lemma_slot_minimum_monotone(small: Seq<u64>, large: Seq<u64>)
    requires
        forall|x: u64| small.contains(x) ==> large.contains(x),
    ensures
        slot_minimum(large) <= slot_minimum(small),
{
    lemma_slot_minimum_is_least(small);
    lemma_slot_minimum_is_least(large);
    if slot_minimum(small) != UNSEEN_SLOT {
        let j = choose|j: int| 0 <= j < small.len() && #[trigger] small[j] == slot_minimum(small);
        assert(small.contains(small[j]));
        let x = small[j];
        assert(large.contains(x));
        let l = choose|l: int| 0 <= l < large.len() && large[l] == x;
        assert(slot_minimum(large) <= large[l]);
    }
}

/// Two rows that hold the same values, in whatever order and however often, give the same
/// slot.
pub proof fn lemma_slot_minimum_ignores_order(a: Seq<u64>, b: Seq<u64>)
    requires
        forall|x: u64| a.contains(x) <==> b.contains(x),
    ensures
        slot_minimum(a) == slot_minimum(b),
{
    lemma_slot_minimum_monotone(a, b);
    lemma_slot_minimum_monotone(b, a);
}

/// Signatures of bucket rows: where each row of `large` holds every value of the matching row
/// of `small`, no slot of its signature is larger; where the rows hold the same values, in
/// whatever order and however often, the signatures are equal.
pub proof fn lemma_signature_monotone(small: Seq<Seq<u64>>, large: Seq<Seq<u64>>)
    requires
        small.len() == large.len(),
        forall|i: int, x: u64| 0 <= i < small.len() && #[trigger] small[i].contains(x) ==> large[i].contains(x),
    ensures
        forall|i: int| 0 <= i < small.len() ==> slot_minimum(#[trigger] large[i]) <= slot_minimum(small[i]),
        (forall|i: int, x: u64| 0 <= i < small.len() && #[trigger] large[i].contains(x) ==> small[i].contains(x))
            ==> forall|i: int| 0 <= i < small.len() ==> slot_minimum(#[trigger] large[i]) == slot_minimum(small[i]),
{
    assert forall|i: int| 0 <= i < small.len() implies slot_minimum(#[trigger] large[i]) <= slot_minimum(small[i]) by {
        assert forall|x: u64| small[i].contains(x) implies large[i].contains(x) by {}
        lemma_slot_minimum_monotone(small[i], large[i]);
    }
    if forall|i: int, x: u64| 0 <= i < small.len() && #[trigger] large[i].contains(x) ==> small[i].contains(x) {
        assert forall|i: int| 0 <= i < small.len() implies slot_minimum(#[trigger] large[i]) == slot_minimum(small[i]) by {
            assert forall|x: u64| large[i].contains(x) implies small[i].contains(x) by {}
            lemma_slot_minimum_monotone(large[i], small[i]);
        }
    }
}

/// The token hashes follow the tokens: where every token of `small` is a token of `large`,
/// every hash of `small` is a hash of `large`.
pub proof fn lemma_token_hashes_follow_tokens(
    small: Seq<String>,
    large: Seq<String>,
    small_hashes: Seq<u64>,
    large_hashes: Seq<u64>,
)
    requires
        forall|t: String| small.contains(t) ==> large.contains(t),
        small_hashes.len() == small.len(),
        large_hashes.len() == large.len(),
        forall|j: int| 0 <= j < small.len() ==> small_hashes[j] == xxh3_digest(#[trigger] small[j]@),
        forall|j: int| 0 <= j < large.len() ==> large_hashes[j] == xxh3_digest(#[trigger] large[j]@),
    ensures
        forall|x: u64| small_hashes.contains(x) ==> large_hashes.contains(x),
{
    assert forall|x: u64| small_hashes.contains(x) implies large_hashes.contains(x) by {
        let j = choose|j: int| 0 <= j < small_hashes.len() && small_hashes[j] == x;
        assert(small.contains(small[j]));
        let l = choose|l: int| 0 <= l < large.len() && large[l] == small[j];
        assert(small_hashes[j] == xxh3_digest(small[j]@));
        assert(large_hashes[l] == xxh3_digest(large[l]@));
        assert(large_hashes[l] == x);
    }
}

} // verus!
