//! Shuffling and uniform sampling.

use crate::rng::next_u64;
use rand_xoshiro::Xoshiro256StarStar;
use vstd::prelude::*;

verus! {

broadcast use vstd::seq_lib::group_to_multiset_ensures;

/// Calls `slice::swap` on the vector's elements: the elements at `i` and
/// `j` trade places and nothing else changes.
#[verifier::external_body]
fn vec_swap<T>(v: &mut Vec<T>, i: usize, j: usize)
    requires
        i < old(v).len(),
        j < old(v).len(),
    ensures
        final(v)@ == old(v)@.update(i as int, old(v)@[j as int]).update(j as int, old(v)@[i as int]),
{
    v.swap(i, j)
}

/// Swapping two positions keeps the multiset of elements.
pub proof fn lemma_swap_keeps_multiset<T>(s: Seq<T>, i: int, j: int)
    requires
        0 <= i < s.len(),
        0 <= j < s.len(),
    ensures
        s.update(i, s[j]).update(j, s[i]).to_multiset() == s.to_multiset(),
{
    let s1 = s.update(i, s[j]);
    assert(s1.to_multiset() == s.to_multiset().insert(s[j]).remove(s[i]));
    assert(s1[j] == s[j] || i == j);
    if i == j {
        assert(s.update(i, s[j]).update(j, s[i]) =~= s);
    } else {
        assert(s1.update(j, s[i]).to_multiset() == s1.to_multiset().insert(s[i]).remove(s1[j]));
        assert(s1.to_multiset().insert(s[i]).remove(s[j]) =~= s.to_multiset());
    }
}

/// The sequence with the elements at `a` and `b` traded.
pub open spec fn swapped<T>(s: Seq<T>, a: int, b: int) -> Seq<T> {
    s.update(a, s[b]).update(b, s[a])
}

/// The two places that draw number `k` of a shuffle over `n` places
/// trades: the passes run `i` over `0..n - 1` in turn, and the draw `d`
/// picks `j = i + d % (n - i)`, anywhere from `i` to the end.
pub open spec fn draw_swap(n: int, k: int, d: usize) -> (int, int) {
    let i = k % (n - 1);
    (i, i + (d as int) % (n - i))
}

/// `s` shuffled in place with the given draws, in order: draw `k` trades
/// the elements at `i` and `j` of `draw_swap`.
pub open spec fn shuffled<T>(s: Seq<T>, draws: Seq<usize>) -> Seq<T>
    decreases draws.len(),
{
    if draws.len() == 0 {
        s
    } else {
        let (i, j) = draw_swap(s.len() as int, draws.len() - 1, draws.last());
        swapped(shuffled(s, draws.drop_last()), i, j)
    }
}

/// Number of draws a shuffle of `shuffles` passes over `n` elements takes:
/// `n - 1` a pass, none below two elements.
pub open spec fn draw_count(n: int, shuffles: int) -> int {
    if n >= 2 {
        shuffles * (n - 1)
    } else {
        0
    }
}

/// `new_s` is what `shuffle` makes of `old_s` for some outcome of its
/// draws.
pub open spec fn shuffle_outcome<T>(old_s: Seq<T>, new_s: Seq<T>, shuffles: u8) -> bool {
    exists|draws: Seq<usize>|
        #![trigger shuffled(old_s, draws)]
        draws.len() == draw_count(old_s.len() as int, shuffles as int) && new_s == shuffled(old_s, draws)
}

/// The pass index of the draw after draw `k`, over passes of `n` draws.
pub proof fn lemma_next_pass_index(k: int, n: int)
    requires
        n > 0,
        k >= 0,
    ensures
        (k + 1) % n == (if k % n + 1 == n { 0 } else { k % n + 1 }),
{
    vstd::arithmetic::div_mod::lemma_fundamental_div_mod(k, n);
    vstd::arithmetic::div_mod::lemma_mod_bound(k, n);
    let q = k / n;
    let r = k % n;
    assert(k + 1 == n * q + (r + 1));
    vstd::arithmetic::div_mod::lemma_mod_multiples_vanish(q, r + 1, n);
    if r + 1 < n {
        vstd::arithmetic::div_mod::lemma_small_mod((r + 1) as nat, n as nat);
    } else {
        vstd::arithmetic::div_mod::lemma_mod_self_0(n);
    }
}

/// Any element can be moved by a shuffle: the first draw `t` trades the
/// first element with the one at `t`, whichever place that is, the last
/// one included.
pub proof fn lemma_first_draw_reaches<T>(s: Seq<T>, t: int)
    requires
        2 <= s.len() <= usize::MAX,
        0 <= t < s.len(),
    ensures
        shuffled(s, seq![t as usize]) == swapped(s, 0, t),
        shuffled(s, seq![t as usize])[0] == s[t],
        shuffled(s, seq![t as usize])[t] == s[0],
{
    let d = seq![t as usize];
    assert(d.drop_last() =~= Seq::<usize>::empty());
    assert(0int % (s.len() - 1) == 0) by (nonlinear_arith)
        requires s.len() >= 2;
    vstd::arithmetic::div_mod::lemma_small_mod(t as nat, s.len());
    assert(draw_swap(s.len() as int, 0, t as usize) == (0int, t));
    assert(d.last() == t as usize);
    assert(d.len() - 1 == 0);
    assert(shuffled(s, d.drop_last()) == s);
    assert(shuffled(s, d) == swapped(shuffled(s, d.drop_last()), 0, t));
}

/// Shuffles `array` with the given draws, as `shuffle` does with the
/// draws it takes from the generator: draw `k` trades the elements at
/// `i = k % (len - 1)` and `j = i + draw % (len - i)`.
pub fn shuffle_with_draws<T>(array: &mut Vec<T>, draws: &Vec<usize>)
    requires
        old(array).len() >= 2 || draws.len() == 0,
    ensures
        final(array)@ == shuffled(old(array)@, draws@),
        final(array)@.len() == old(array)@.len(),
        final(array)@.to_multiset() == old(array)@.to_multiset(),
{
    let len = array.len();
    if draws.len() == 0 {
        return;
    }
    let mut i: usize = 0;
    let mut k: usize = 0;
    while k < draws.len()
        invariant
            len == array.len() == old(array).len() >= 2,
            k <= draws.len(),
            i as int == (k as int) % (len as int - 1),
            array@ == shuffled(old(array)@, draws@.take(k as int)),
            array@.to_multiset() == old(array)@.to_multiset(),
        decreases draws.len() - k,
    {
        proof {
            vstd::arithmetic::div_mod::lemma_mod_bound(k as int, len as int - 1);
        }
        let j = i + draws[k] % (len - i);
        proof {
            lemma_swap_keeps_multiset(array@, i as int, j as int);
            lemma_next_pass_index(k as int, len as int - 1);
            assert(draws@.take(k as int + 1).drop_last() =~= draws@.take(k as int));
        }
        vec_swap(array, i, j);
        k += 1;
        if i + 1 == len - 1 {
            i = 0;
        } else {
            i = i + 1;
        }
    }
    assert(draws@.take(k as int) =~= draws@);
}

/// Draws the numbers a shuffle of `shuffles` passes over `len` elements
/// takes: `len - 1` `next_u64` draws a pass, none below two elements.
pub fn shuffle_draws(len: usize, shuffles: u8, rng: &mut Xoshiro256StarStar) -> (draws: Vec<usize>)
    ensures
        draws.len() == draw_count(len as int, shuffles as int),
{
    let mut draws: Vec<usize> = Vec::new();
    if len >= 2 {
        let mut s: u8 = 0;
        while s < shuffles
            invariant
                len >= 2,
                s <= shuffles,
                draws.len() == s as int * (len as int - 1),
            decreases shuffles - s,
        {
            let mut i: usize = 0;
            while i < len - 1
                invariant
                    len >= 2,
                    i <= len - 1,
                    draws.len() == s as int * (len as int - 1) + i,
                decreases len - 1 - i,
            {
                let uniform: usize = next_u64(rng) as usize;
                draws.push(uniform);
                i += 1;
            }
            proof {
                assert((s + 1) as int * (len as int - 1) == s as int * (len as int - 1) + (len as int - 1))
                    by (nonlinear_arith);
            }
            s += 1;
        }
    }
    draws
}

/// Fisher-Yates shuffle, repeated `shuffles` times.
///
/// Each pass draws `len - 1` numbers from the generator (`shuffle_draws`)
/// and trades, for `i` from 0, the element at `i` with one from `i` to the
/// end (`shuffle_with_draws`). The elements are permuted, any of them may
/// move, and a vector of fewer than two elements is left as it is.
pub fn shuffle<T>(array: &mut Vec<T>, shuffles: u8, rng: &mut Xoshiro256StarStar)
    ensures
        final(array)@.len() == old(array)@.len(),
        final(array)@.to_multiset() == old(array)@.to_multiset(),
        (old(array)@.len() < 2 || shuffles == 0) ==> final(array)@ == old(array)@,
        shuffle_outcome(old(array)@, final(array)@, shuffles),
{
    let len = array.len();
    let draws = shuffle_draws(len, shuffles, rng);
    proof {
        let n = len as int;
        let c = draws.len() as int;
        assert(shuffles == 0 ==> c == 0) by (nonlinear_arith)
            requires
                c == (if n >= 2 { shuffles as int * (n - 1) } else { 0 });
    }
    shuffle_with_draws(array, &draws);
    proof {
        assert(draws@.len() == 0 ==> shuffled(old(array)@, draws@) == old(array)@);
        assert(array@.len() == old(array)@.len()) by {
            assert(array@.to_multiset().len() == old(array)@.to_multiset().len());
        }
    }
}

/// Number of occurrences of `x` in `s`.
pub open spec fn occurrences<T>(s: Seq<T>, x: T) -> nat {
    s.to_multiset().count(x)
}

/// Number of whole copies of the alphabet that `uniform_random_vector`
/// draws for a vector of `length` elements.
pub open spec fn copies_drawn(length: int, alphabet_len: int) -> int {
    (length - 1) / alphabet_len + 1
}

/// A fresh copy of a vector of `Copy` elements.
pub(crate) fn copy_vec<T: Copy>(v: &Vec<T>) -> (res: Vec<T>)
    ensures
        res@ == v@,
{
    let mut res: Vec<T> = Vec::new();
    let mut i: usize = 0;
    while i < v.len()
        invariant
            i <= v.len(),
            res@ == v@.subrange(0, i as int),
        decreases v.len() - i,
    {
        res.push(v[i]);
        i += 1;
    }
    assert(v@.subrange(0, v.len() as int) =~= v@);
    res
}


/// Splitting a sequence splits each element's occurrences.
proof fn lemma_occurrences_concat<T>(a: Seq<T>, b: Seq<T>, x: T)
    ensures
        occurrences(a + b, x) == occurrences(a, x) + occurrences(b, x),
{
    vstd::seq_lib::lemma_multiset_commutative(a, b);
}

/// A prefix has no more occurrences than the whole sequence.
proof fn lemma_occurrences_take<T>(s: Seq<T>, m: int, x: T)
    requires
        0 <= m <= s.len(),
    ensures
        occurrences(s.take(m), x) <= occurrences(s, x),
{
    assert(s.take(m) + s.skip(m) =~= s);
    lemma_occurrences_concat(s.take(m), s.skip(m), x);
}

/// The shuffled copies of `alphabet`, one for each list of draws, one
/// after another.
pub open spec fn concat_shuffled<T>(alphabet: Seq<T>, copy_draws: Seq<Seq<usize>>) -> Seq<T>
    decreases copy_draws.len(),
{
    if copy_draws.len() == 0 {
        Seq::empty()
    } else {
        concat_shuffled(alphabet, copy_draws.drop_last()) + shuffled(alphabet, copy_draws.last())
    }
}

/// The vector that `uniform_random_vector_with_draws` builds with the
/// given draws: the copies of the alphabet shuffled with `copy_draws`, one
/// after another, cut to `length` and shuffled with `final_draws`.
pub open spec fn uniform_drawn<T>(alphabet: Seq<T>, length: int, copy_draws: Seq<Seq<usize>>, final_draws: Seq<usize>) -> Seq<T> {
    shuffled(concat_shuffled(alphabet, copy_draws).take(length), final_draws)
}

/// The lists of draws, as sequences.
pub open spec fn draw_lists(v: Seq<Vec<usize>>) -> Seq<Seq<usize>> {
    v.map_values(|d: Vec<usize>| d@)
}

/// Builds a vector of `length` elements from `alphabet` as evenly as
/// possible, with the given draws (`uniform_drawn`): one copy of the
/// alphabet for each list of `copy_draws`, shuffled with it, the copies
/// concatenated, cut to `length` and shuffled with `final_draws`.
///
/// With `k` copies, every value occurs at least `k - 1` and at most `k`
/// times as often as in the alphabet.
pub fn uniform_random_vector_with_draws<T: Copy>(
    alphabet: &Vec<T>,
    length: usize,
    copy_draws: &Vec<Vec<usize>>,
    final_draws: &Vec<usize>,
) -> (vector: Vec<T>)
    requires
        alphabet.len() >= 1,
        length >= 1,
        length - 1 + alphabet.len() <= usize::MAX,
        copy_draws.len() == copies_drawn(length as int, alphabet.len() as int),
        forall|d: int| 0 <= d < copy_draws.len() ==> (#[trigger] copy_draws@[d]).len() == 0 || alphabet.len() >= 2,
        final_draws.len() == 0 || length >= 2,
    ensures
        vector@ == uniform_drawn(alphabet@, length as int, draw_lists(copy_draws@), final_draws@),
        vector.len() == length,
        forall|x: T|
            #![trigger occurrences(vector@, x)]
            (copies_drawn(length as int, alphabet.len() as int) - 1) * occurrences(alphabet@, x)
                <= occurrences(vector@, x) <= copies_drawn(length as int, alphabet.len() as int)
                * occurrences(alphabet@, x),
        forall|i: int| 0 <= i < length ==> alphabet@.contains(#[trigger] vector@[i]),
        length % alphabet.len() == 0 ==> forall|x: T|
            #![trigger occurrences(vector@, x)]
            occurrences(vector@, x) == (length as int / alphabet.len() as int) * occurrences(alphabet@, x),
{
    let ghost cds = draw_lists(copy_draws@);
    let mut vector: Vec<T> = Vec::new();
    let alphabet_length = alphabet.len();
    let copies = (length - 1) / alphabet_length + 1;
    let ghost n = alphabet_length as int;
    let ghost k = copies as int;
    proof {
        let q = (length - 1) as int / n;
        let r = (length - 1) as int % n;
        vstd::arithmetic::div_mod::lemma_fundamental_div_mod((length - 1) as int, n);
        vstd::arithmetic::div_mod::lemma_mod_bound((length - 1) as int, n);
        assert(length - 1 == n * q + r);
        assert((k - 1) * n == n * q) by (nonlinear_arith)
            requires k - 1 == q;
        assert((k - 1) * n <= length - 1);
        assert(k * n == (k - 1) * n + n) by (nonlinear_arith);
        assert(k * n >= length);
    }
    let ghost mut prev: Seq<T> = Seq::empty();
    let ghost mut last: Seq<T> = Seq::empty();
    let mut c: usize = 0;
    while c < copies
        invariant
            alphabet_length == alphabet.len(),
            n == alphabet_length,
            n >= 1,
            k == copies,
            k * n <= length - 1 + n,
            0 <= c <= copies,
            vector.len() == c * n,
            c >= 1 ==> vector@ == prev + last,
            c >= 1 ==> prev.len() == (c - 1) * n,
            c >= 1 ==> last.to_multiset() == alphabet@.to_multiset(),
            c >= 1 ==> last.len() == n,
            forall|x: T| #[trigger] occurrences(vector@, x) == c * occurrences(alphabet@, x),
            c >= 1 ==> forall|x: T|
                #[trigger] occurrences(prev, x) == (c - 1) * occurrences(alphabet@, x),
            forall|i: int| 0 <= i < vector.len() ==> alphabet@.contains(#[trigger] vector@[i]),
            copy_draws.len() == copies,
            cds == draw_lists(copy_draws@),
            forall|d: int| 0 <= d < copies ==> (#[trigger] copy_draws@[d]).len() == 0 || alphabet.len() >= 2,
            vector@ == concat_shuffled(alphabet@, cds.take(c as int)),
        decreases copies - c,
    {
        let mut chunk = copy_vec(alphabet);
        shuffle_with_draws(&mut chunk, &copy_draws[c]);
        proof {
            assert(c * n + n <= k * n) by (nonlinear_arith)
                requires c < k, n >= 1;
            assert((c + 1) * n == c * n + n) by (nonlinear_arith);
            prev = vector@;
            last = chunk@;
            assert forall|x: T| #[trigger] occurrences(vector@ + chunk@, x) == (c + 1) * occurrences(alphabet@, x) by {
                lemma_occurrences_concat(vector@, chunk@, x);
                assert((c + 1) * occurrences(alphabet@, x) == c * occurrences(alphabet@, x) + occurrences(alphabet@, x)) by (nonlinear_arith);
            }
            assert forall|i: int| 0 <= i < chunk.len() implies alphabet@.contains(#[trigger] chunk@[i]) by {
                assert(chunk@.to_multiset().count(chunk@[i]) > 0);
            }
        }
        let ghost before = vector@;
        proof {
            assert(chunk@ == shuffled(alphabet@, cds[c as int]));
            assert(cds.take(c as int + 1).drop_last() =~= cds.take(c as int));
        }
        vector.append(&mut chunk);
        proof {
            assert forall|i: int| 0 <= i < vector.len() implies alphabet@.contains(#[trigger] vector@[i]) by {
                if i >= before.len() {
                    assert(vector@[i] == last[i - before.len()]);
                } else {
                    assert(vector@[i] == before[i]);
                }
            }
        }
        c += 1;
    }
    let ghost whole = vector@;
    assert(cds.take(copies as int) =~= cds);
    proof {
        assert((k - 1) * n < length);
        assert forall|x: T| #![trigger occurrences(whole.take(length as int), x)]
            (k - 1) * occurrences(alphabet@, x) <= occurrences(whole.take(length as int), x)
                <= k * occurrences(alphabet@, x) by {
            let m = length as int - (k - 1) * n;
            assert(c == k);
            assert(prev.len() == (k - 1) * n);
            assert(0 < m <= n);
            assert(whole.take(length as int) =~= prev + last.take(m));
            assert(occurrences(prev, x) == (k - 1) * occurrences(alphabet@, x));
            assert(k * occurrences(alphabet@, x) == (k - 1) * occurrences(alphabet@, x) + occurrences(alphabet@, x)) by (nonlinear_arith);
            lemma_occurrences_concat(prev, last.take(m), x);
            lemma_occurrences_take(last, m, x);
            assert(occurrences(last, x) == occurrences(alphabet@, x));
        }
        if length as int % n == 0 {
            let q = length as int / n;
            vstd::arithmetic::div_mod::lemma_fundamental_div_mod(length as int, n);
            assert(length == n * q);
            assert(k == q) by (nonlinear_arith)
                requires (k - 1) * n <= length - 1, k * n >= length, length == n * q, n >= 1;
            assert(k * n == length) by (nonlinear_arith)
                requires k == q, length == n * q;
            assert forall|x: T| #![trigger occurrences(whole.take(length as int), x)]
                occurrences(whole.take(length as int), x) == k * occurrences(alphabet@, x) by {
                assert(prev.len() == (k - 1) * n);
                assert((k - 1) * n == length - n) by (nonlinear_arith)
                    requires k * n == length;
                assert(whole.take(length as int) =~= prev + last);
                lemma_occurrences_concat(prev, last, x);
                assert(occurrences(last, x) == occurrences(alphabet@, x));
                assert(occurrences(prev, x) == (k - 1) * occurrences(alphabet@, x));
                assert(k * occurrences(alphabet@, x) == (k - 1) * occurrences(alphabet@, x) + occurrences(alphabet@, x)) by (nonlinear_arith);
            }
        }
    }
    vector.truncate(length);
    let ghost cut = vector@;
    proof {
        assert forall|i: int| 0 <= i < length implies alphabet@.contains(#[trigger] cut[i]) by {
            assert(cut[i] == whole[i]);
        }
    }
    shuffle_with_draws(&mut vector, final_draws);
    proof {
        assert(cut == whole.take(length as int));
        assert(vector@ == uniform_drawn(alphabet@, length as int, cds, final_draws@));
        assert forall|x: T| #[trigger] occurrences(vector@, x) == occurrences(cut, x) by {}
        if length as int % n == 0 {
            assert(k == length as int / n);
            assert forall|x: T| #![trigger occurrences(vector@, x)]
                occurrences(vector@, x) == (length as int / n) * occurrences(alphabet@, x) by {
                assert(occurrences(vector@, x) == occurrences(whole.take(length as int), x));
            }
        }
        assert forall|i: int| 0 <= i < length implies alphabet@.contains(#[trigger] vector@[i]) by {
            assert(vector@.to_multiset().count(vector@[i]) > 0);
            assert(cut.contains(vector@[i]));
        }
    }
    vector
}


/// The draws that the copies' shuffles and the last shuffle of
/// `uniform_random_vector` take, in that order: `copies_drawn` lists of
/// `shuffle_draws` over the alphabet, then `shuffle_draws` over the vector.
pub fn uniform_draws(alphabet_len: usize, length: usize, shuffles: u8, rng: &mut Xoshiro256StarStar) -> (draws: (
    Vec<Vec<usize>>,
    Vec<usize>,
))
    requires
        alphabet_len >= 1,
        length >= 1,
    ensures
        draws.0.len() == copies_drawn(length as int, alphabet_len as int),
        forall|d: int| 0 <= d < draws.0.len() ==> (#[trigger] draws.0@[d]).len() == draw_count(alphabet_len as int, shuffles as int),
        forall|d: int| 0 <= d < draws.0.len() ==> (#[trigger] draws.0@[d]).len() == 0 || alphabet_len >= 2,
        draws.1.len() == draw_count(length as int, shuffles as int),
        draws.1.len() == 0 || length >= 2,
{
    let copies = (length - 1) / alphabet_len + 1;
    let mut copy_draws: Vec<Vec<usize>> = Vec::new();
    let mut c: usize = 0;
    while c < copies
        invariant
            c <= copies,
            copy_draws.len() == c,
            forall|d: int| 0 <= d < c ==> (#[trigger] copy_draws@[d]).len() == draw_count(alphabet_len as int, shuffles as int),
        decreases copies - c,
    {
        copy_draws.push(shuffle_draws(alphabet_len, shuffles, rng));
        c += 1;
    }
    let final_draws = shuffle_draws(length, shuffles, rng);
    proof {
        assert forall|d: int| 0 <= d < copy_draws.len() implies (#[trigger] copy_draws@[d]).len() == 0 || alphabet_len >= 2 by {
            if alphabet_len < 2 {
                assert(draw_count(alphabet_len as int, shuffles as int) == 0);
            }
        }
    }
    (copy_draws, final_draws)
}

/// Builds a vector of `length` elements drawn from `alphabet` as evenly as
/// possible: whole shuffled copies of the alphabet are concatenated, cut to
/// `length` and shuffled once more.
///
/// The draws come from the generator, each copy's shuffle in turn and the
/// last shuffle after them, and the vector is the one that
/// `uniform_random_vector_with_draws` builds with them.
///
/// With `k` the number of copies drawn, every value occurs at least `k - 1`
/// and at most `k` times as often as in the alphabet; for an alphabet
/// without duplicates each value thus occurs `k - 1` or `k` times.
pub fn uniform_random_vector<T: Copy>(
    alphabet: &Vec<T>,
    length: usize,
    shuffles: u8,
    rng: &mut Xoshiro256StarStar,
) -> (vector: Vec<T>)
    requires
        alphabet.len() >= 1,
        length >= 1,
        length - 1 + alphabet.len() <= usize::MAX,
    ensures
        vector.len() == length,
        forall|x: T|
            #![trigger occurrences(vector@, x)]
            (copies_drawn(length as int, alphabet.len() as int) - 1) * occurrences(alphabet@, x)
                <= occurrences(vector@, x) <= copies_drawn(length as int, alphabet.len() as int)
                * occurrences(alphabet@, x),
        forall|i: int| 0 <= i < length ==> alphabet@.contains(#[trigger] vector@[i]),
        length % alphabet.len() == 0 ==> forall|x: T|
            #![trigger occurrences(vector@, x)]
            occurrences(vector@, x) == (length as int / alphabet.len() as int) * occurrences(alphabet@, x),
        exists|copy_draws: Seq<Seq<usize>>, final_draws: Seq<usize>|
            #![trigger uniform_drawn(alphabet@, length as int, copy_draws, final_draws)]
            {
                &&& copy_draws.len() == copies_drawn(length as int, alphabet.len() as int)
                &&& forall|d: int| 0 <= d < copy_draws.len() ==> (#[trigger] copy_draws[d]).len() == draw_count(alphabet.len() as int, shuffles as int)
                &&& final_draws.len() == draw_count(length as int, shuffles as int)
                &&& vector@ == uniform_drawn(alphabet@, length as int, copy_draws, final_draws)
            },
{
    let (copy_draws, final_draws) = uniform_draws(alphabet.len(), length, shuffles, rng);
    let vector = uniform_random_vector_with_draws(alphabet, length, &copy_draws, &final_draws);
    proof {
        let cds = draw_lists(copy_draws@);
        assert(forall|d: int| 0 <= d < cds.len() ==> #[trigger] cds[d] == copy_draws@[d]@);
        assert(forall|d: int| 0 <= d < cds.len() ==> (#[trigger] cds[d]).len() == draw_count(alphabet.len() as int, shuffles as int));
    }
    vector
}

/// What drawing from `pool` with the draws, in order, takes out and what
/// it leaves: each draw `d` takes the element at `d % len` of what is left.
pub open spec fn picked<T>(pool: Seq<T>, ds: Seq<u64>) -> (Seq<T>, Seq<T>)
    decreases ds.len(),
{
    if ds.len() == 0 {
        (Seq::empty(), pool)
    } else {
        let r = picked(pool, ds.drop_last());
        let i = (ds.last() as int) % (r.1.len() as int);
        (r.0.push(r.1[i]), r.1.remove(i))
    }
}

/// Drawing with one more draw takes one more element.
pub proof fn lemma_picked_push<T>(pool: Seq<T>, ds: Seq<u64>, d: u64)
    ensures
        ({
            let r = picked(pool, ds);
            let i = (d as int) % (r.1.len() as int);
            picked(pool, ds.push(d)) == (r.0.push(r.1[i]), r.1.remove(i))
        }),
{
    assert(ds.push(d).drop_last() =~= ds);
}

/// Removes the element at `d % len` of the pool, for draw `d`, and returns
/// it.
pub fn take_drawn<T>(pool: &mut Vec<T>, d: u64) -> (x: T)
    requires
        old(pool).len() > 0,
    ensures
        x == old(pool)@[(d as int) % (old(pool).len() as int)],
        final(pool)@ == old(pool)@.remove((d as int) % (old(pool).len() as int)),
        final(pool).len() == old(pool).len() - 1,
        old(pool)@.contains(x),
        final(pool)@.to_multiset() == old(pool)@.to_multiset().remove(x),
        old(pool)@.no_duplicates() ==> final(pool)@.no_duplicates(),
        old(pool)@.no_duplicates() ==> !final(pool)@.contains(x),
        forall|y: T| #[trigger] final(pool)@.contains(y) ==> old(pool)@.contains(y),
        old(pool)@.no_duplicates() ==> forall|y: T|
            old(pool)@.contains(y) && y != x ==> #[trigger] final(pool)@.contains(y),
{
    let idx = (d % pool.len() as u64) as usize;
    let ghost before = pool@;
    let x = pool.remove(idx);
    proof {
        assert(before.remove(idx as int).to_multiset() == before.to_multiset().remove(before[idx as int]));
        assert(pool@ == before.remove(idx as int));
        before.remove_ensures(idx as int);
        assert forall|y: T| #[trigger] pool@.contains(y) implies before.contains(y) by {
            let k = choose|k: int| 0 <= k < pool@.len() && pool@[k] == y;
            if k < idx {
                assert(before[k] == y);
            } else {
                assert(before[k + 1] == y);
            }
        }
        if before.no_duplicates() {
            assert forall|a: int, b: int| 0 <= a < b < pool@.len() implies pool@[a] != pool@[b] by {
                let a2 = if a < idx { a } else { a + 1 };
                let b2 = if b < idx { b } else { b + 1 };
                assert(pool@[a] == before[a2]);
                assert(pool@[b] == before[b2]);
            }
            if pool@.contains(x) {
                let k = choose|k: int| 0 <= k < pool@.len() && pool@[k] == x;
                let k2 = if k < idx { k } else { k + 1 };
                assert(before[k2] == x);
            }
            assert forall|y: T| before.contains(y) && y != x implies #[trigger] pool@.contains(y) by {
                let k = choose|k: int| 0 <= k < before.len() && before[k] == y;
                if k < idx {
                    assert(pool@[k] == y);
                } else {
                    assert(k != idx);
                    assert(pool@[k - 1] == y);
                }
            }
        }
    }
    x
}


/// The elements are strictly increasing.
pub open spec fn strictly_increasing(s: Seq<u16>) -> bool {
    forall|a: int, b: int| 0 <= a < b < s.len() ==> s[a] < s[b]
}

/// Strictly increasing sequences have no duplicates.
pub proof fn lemma_increasing_no_duplicates(s: Seq<u16>)
    requires
        strictly_increasing(s),
    ensures
        s.no_duplicates(),
{
    assert forall|a: int, b: int| 0 <= a < s.len() && 0 <= b < s.len() && a != b implies s[a] != s[b] by {
        if a < b {
            assert(s[a] < s[b]);
        } else {
            assert(s[b] < s[a]);
        }
    }
}

/// Adds `x` to an increasing set of values, keeping it increasing.
#[verifier::spinoff_prover]
pub(crate) fn insert_sorted(set: &mut Vec<u16>, x: u16)
    requires
        strictly_increasing(old(set)@),
    ensures
        strictly_increasing(final(set)@),
        forall|y: u16| #[trigger] final(set)@.contains(y) <==> (old(set)@.contains(y) || y == x),
{
    let mut p: usize = 0;
    while p < set.len() && set[p] < x
        invariant
            p <= set.len(),
            forall|k: int| 0 <= k < p ==> set@[k] < x,
        decreases set.len() - p,
    {
        p += 1;
    }
    if p < set.len() && set[p] == x {
        return;
    }
    let ghost before = set@;
    set.insert(p, x);
    proof {
        before.insert_ensures(p as int, x);
        assert forall|a: int, b: int| 0 <= a < b < set@.len() implies set@[a] < set@[b] by {
            if b < p {
            } else if a < p && b == p {
            } else if a < p {
                assert(set@[b] == before[b - 1]);
                assert(before[a] < before[b - 1] || a == b - 1);
            } else if a == p {
                assert(set@[b] == before[b - 1]);
                assert(before[p as int] > x);
                assert(before[p as int] <= before[b - 1]);
            } else {
                assert(set@[a] == before[a - 1]);
                assert(set@[b] == before[b - 1]);
            }
        }
        assert forall|y: u16| #[trigger] set@.contains(y) <==> (before.contains(y) || y == x) by {
            if set@.contains(y) {
                let k = choose|k: int| 0 <= k < set@.len() && set@[k] == y;
                if k < p {
                    assert(before[k] == y);
                } else if k > p {
                    assert(before[k - 1] == y);
                }
            }
            if before.contains(y) {
                let k = choose|k: int| 0 <= k < before.len() && before[k] == y;
                if k < p {
                    assert(set@[k] == y);
                } else {
                    assert(set@[k + 1] == y);
                }
            }
            if y == x {
                assert(set@[p as int] == x);
            }
        }
    }
}

/// The distinct values, in increasing order, as iterating a sorted set of
/// them gives them.
pub(crate) fn sorted_unique(values: &Vec<u16>) -> (set: Vec<u16>)
    ensures
        strictly_increasing(set@),
        set@.no_duplicates(),
        set@.to_set() == values@.to_set(),
        set.len() == values@.to_set().len(),
{
    let mut set: Vec<u16> = Vec::new();
    let mut i: usize = 0;
    while i < values.len()
        invariant
            i <= values.len(),
            strictly_increasing(set@),
            forall|y: u16| #[trigger] set@.contains(y) <==> values@.take(i as int).contains(y),
        decreases values.len() - i,
    {
        insert_sorted(&mut set, values[i]);
        proof {
            assert forall|y: u16| #[trigger] set@.contains(y) <==> values@.take(i + 1).contains(y) by {
                let t1 = values@.take(i + 1);
                let t0 = values@.take(i as int);
                if t1.contains(y) {
                    let k = choose|k: int| 0 <= k < t1.len() && t1[k] == y;
                    if k < i {
                        assert(t0[k] == y);
                    }
                }
                if t0.contains(y) {
                    let k = choose|k: int| 0 <= k < t0.len() && t0[k] == y;
                    assert(t1[k] == y);
                }
                if y == values@[i as int] {
                    assert(values@.take(i + 1)[i as int] == y);
                }
            }
        }
        i += 1;
    }
    proof {
        assert(values@.take(i as int) =~= values@);
        lemma_increasing_no_duplicates(set@);
        assert(set@.to_set() =~= values@.to_set());
        set@.unique_seq_to_set();
    }
    set
}

} // verus!
