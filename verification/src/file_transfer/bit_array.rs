use crate::text::{append_binary, append_decimal, binary, decimal};
use vstd::prelude::*;
use vstd::string::StringExecFns;

verus! {

/// Number of 64-bit words that hold `len` bits.
pub open spec fn words_for(len: nat) -> nat {
    (len + 63) / 64
}

/// Whether the bit at `offset`, counted from the most significant end, is set in `word`.
pub open spec fn word_bit(word: u64, offset: nat) -> bool
    recommends
        offset < 64,
{
    word & (1u64 << ((63 - offset) as u64)) != 0
}

/// The indices below `n` whose bit is clear, in ascending order.
pub open spec fn unset_below(bits: Seq<bool>, n: nat) -> Seq<u32>
    decreases n,
{
    if n == 0 {
        Seq::empty()
    } else {
        let rest = unset_below(bits, (n - 1) as nat);
        if bits[n - 1] {
            rest
        } else {
            rest.push((n - 1) as u32)
        }
    }
}

/// All indices of `bits` whose bit is clear, in ascending order.
pub open spec fn unset_indices(bits: Seq<bool>) -> Seq<u32> {
    unset_below(bits, bits.len())
}

proof fn lemma_zero_word(k: u64)
    by (bit_vector)
    requires
        k < 64,
    ensures
        0u64 & (1u64 << k) == 0,
{
}

proof fn lemma_full_word(w: u64, k: u64)
    by (bit_vector)
    requires
        k < 64,
        w == 0xffff_ffff_ffff_ffffu64,
    ensures
        w & (1u64 << k) != 0,
{
}

proof fn lemma_or_bit(w: u64, k: u64, j: u64)
    by (bit_vector)
    requires
        k < 64,
        j < 64,
    ensures
        ((w | (1u64 << k)) & (1u64 << j) != 0) <==> (j == k || w & (1u64 << j) != 0),
{
}

proof fn lemma_low_ones(u: u64, j: u64)
    by (bit_vector)
    requires
        1 <= u < 64,
        j < 64,
    ensures
        ((0xffff_ffff_ffff_ffffu64 >> ((64 - u) as u64)) & (1u64 << j) != 0) <==> j < u,
{
}

/// The words in binary, each with `0b` before its 64 digits, with commas
/// between them.
pub open spec fn words_binary(words: Seq<u64>) -> Seq<char>
    decreases words.len(),
{
    if words.len() == 0 {
        Seq::empty()
    } else if words.len() == 1 {
        "0b"@ + binary(words[0] as nat, 64)
    } else {
        words_binary(words.drop_last()) + ", "@ + "0b"@ + binary(words.last() as nat, 64)
    }
}

/// The words in decimal, with commas between them.
pub open spec fn words_decimal(words: Seq<u64>) -> Seq<char>
    decreases words.len(),
{
    if words.len() == 0 {
        Seq::empty()
    } else if words.len() == 1 {
        decimal(words[0] as nat)
    } else {
        words_decimal(words.drop_last()) + ", "@ + decimal(words.last() as nat)
    }
}

/// A fixed number of bits, stored most significant bit first in 64-bit words.
///
/// The bits of the last word that lie beyond `len` are kept set, so that a
/// word whose bits are all set never holds a clear bit of the array.
#[derive(Debug)]
pub struct BitArray {
    vec: Vec<u64>,
    len: u32,
}

impl Default for BitArray {
    /// The array of no bits.
    fn default() -> (arr: Self)
        ensures
            arr.wf(),
            arr@.len() == 0,
    {
        Self { vec: Vec::new(), len: 0 }
    }
}

impl View for BitArray {
    type V = Seq<bool>;

    closed spec fn view(&self) -> Seq<bool> {
        Seq::new(self.len as nat, |i: int| word_bit(self.vec@[i / 64], (i % 64) as nat))
    }
}

impl BitArray {
    /// The stored bit at raw position `i`, which may lie in the padding.
    spec fn raw(&self, i: int) -> bool {
        word_bit(self.vec@[i / 64], (i % 64) as nat)
    }

    spec fn raw_bits(&self) -> Seq<bool> {
        Seq::new((self.vec@.len() * 64) as nat, |i: int| self.raw(i))
    }

    /// The representation invariant: exactly enough words, and set padding.
    pub closed spec fn wf(&self) -> bool {
        &&& self.vec@.len() == words_for(self.len as nat)
        &&& forall|i: int| self.len <= i < self.vec@.len() * 64 ==> self.raw(i)
    }

    pub fn new(len: u32) -> (arr: Self)
        ensures
            arr.wf(),
            arr@.len() == len,
            forall|i: int| 0 <= i < len ==> !arr@[i],
    {
        let mut arr = BitArray { vec: Vec::new(), len: 0 };
        arr.reset(len);
        arr
    }

    /// Makes this an array of `len` clear bits, keeping the allocation where it is large enough.
    pub fn reset(&mut self, len: u32)
        ensures
            final(self).wf(),
            final(self)@.len() == len,
            forall|i: int| 0 <= i < len ==> !final(self)@[i],
    {
        let extra: u32 = if len % 64 == 0 { 0 } else { 1 };
        let new_vec_len: usize = (len / 64 + extra) as usize;
        self.vec.clear();
        while self.vec.len() < new_vec_len
            invariant
                self.vec@.len() <= new_vec_len,
                forall|k: int| 0 <= k < self.vec@.len() ==> self.vec@[k] == 0,
            decreases new_vec_len - self.vec@.len(),
        {
            self.vec.push(0);
        }
        self.len = len;
        self.fill_unused();
        proof {
            assert forall|i: int| 0 <= i < len implies !self@[i] by {
                assert(!self.raw(i));
            }
        }
    }

    pub fn len(&self) -> (n: u32)
        ensures
            n == self@.len(),
    {
        self.len
    }

    /// The words that hold the bits, padding included.
    pub closed spec fn words(&self) -> Seq<u64> {
        self.vec@
    }

    /// The array as text, for the eye: the words in binary where
    /// `alternate` is set, else the words in decimal and the number of bits.
    pub open spec fn shown(&self, alternate: bool) -> Seq<char> {
        if alternate {
            words_binary(self.words())
        } else {
            "BitFlag { flag: ["@ + words_decimal(self.words()) + "], count: "@ + decimal(
                self@.len(),
            ) + " }"@
        }
    }

    /// The array as text, for the eye.
    pub fn show(&self, alternate: bool) -> (r: String)
        ensures
            r@ == self.shown(alternate),
    {
        let mut out = String::new();
        if !alternate {
            out.append("BitFlag { flag: [");
        }
        let ghost head = out@;
        let mut i: usize = 0;
        while i < self.vec.len()
            invariant
                i <= self.vec@.len(),
                alternate ==> out@ == head + words_binary(self.vec@.take(i as int)),
                !alternate ==> out@ == head + words_decimal(self.vec@.take(i as int)),
            decreases self.vec@.len() - i,
        {
            if i > 0 {
                out.append(", ");
            }
            if alternate {
                out.append("0b");
                append_binary(&mut out, self.vec[i], 64);
            } else {
                append_decimal(&mut out, self.vec[i]);
            }
            proof {
                let next = self.vec@.take(i + 1);
                assert(next.drop_last() =~= self.vec@.take(i as int));
                assert(next.last() == self.vec@[i as int]);
                assert(next[0] == self.vec@[0]);
                if alternate {
                    assert(out@ =~= head + words_binary(next));
                } else {
                    assert(out@ =~= head + words_decimal(next));
                }
            }
            i += 1;
        }
        proof {
            assert(self.vec@.take(i as int) =~= self.vec@);
        }
        if !alternate {
            out.append("], count: ");
            append_decimal(&mut out, self.len as u64);
            out.append(" }");
            assert(out@ =~= self.shown(alternate));
        } else {
            assert(out@ =~= self.shown(alternate));
        }
        out
    }

    pub fn is_set(&self, index: u32) -> (b: bool)
        requires
            self.wf(),
            index < self@.len(),
        ensures
            b == self@[index as int],
    {
        let position: u32 = index / 64;
        let offset: u32 = index % 64;
        (self.vec[position as usize] & (1u64 << (63 - offset))) != 0
    }

    pub fn set(&mut self, index: u32)
        requires
            old(self).wf(),
            index < old(self)@.len(),
        ensures
            final(self).wf(),
            final(self)@ == old(self)@.update(index as int, true),
    {
        let position: u32 = index / 64;
        let offset: u32 = index % 64;
        let word: u64 = self.vec[position as usize];
        let updated: u64 = word | (1u64 << (63 - offset));
        self.vec.set(position as usize, updated);
        proof {
            assert forall|i: int| 0 <= i < self.vec@.len() * 64 implies self.raw(i) == (i == index
                || old(self).raw(i)) by {
                if i / 64 == position as int {
                    lemma_or_bit(word, (63 - offset) as u64, (63 - i % 64) as u64);
                }
            }
            assert forall|i: int| 0 <= i < self.len implies self@[i] == old(self)@.update(
                index as int,
                true,
            )[i] by {
                assert(self.raw(i) == (i == index || old(self).raw(i)));
            }
            assert(self@ =~= old(self)@.update(index as int, true));
            assert forall|i: int| self.len <= i < self.vec@.len() * 64 implies self.raw(i) by {
                assert(old(self).raw(i));
            }
        }
    }

    /// The indices of the clear bits, in ascending order.
    pub fn collect_unset(&self) -> (unset: Vec<u32>)
        requires
            self.wf(),
        ensures
            unset@ == unset_indices(self@),
    {
        let mut unset: Vec<u32> = Vec::new();
        let mut index: usize = 0;
        let ghost raw = self.raw_bits();
        while index < self.vec.len()
            invariant
                self.wf(),
                raw == self.raw_bits(),
                index <= self.vec@.len(),
                unset@ == unset_below(raw, (index * 64) as nat),
            decreases self.vec@.len() - index,
        {
            let v: u64 = self.vec[index];
            if v != u64::MAX {
                let mut j: u32 = 0;
                while j < 64
                    invariant
                        self.wf(),
                        raw == self.raw_bits(),
                        index < self.vec@.len(),
                        v == self.vec@[index as int],
                        j <= 64,
                        unset@ == unset_below(raw, (index * 64 + j) as nat),
                    decreases 64 - j,
                {
                    let ghost pos = index * 64 + j;
                    assert(raw[pos] == word_bit(v, j as nat));
                    if (v & (1u64 << (63 - j))) == 0 {
                        unset.push((index * 64) as u32 + j);
                    }
                    j += 1;
                }
            } else {
                proof {
                    assert forall|i: int| index * 64 <= i < index * 64 + 64 implies raw[i] by {
                        lemma_full_word(v, (63 - i % 64) as u64);
                    }
                    Self::lemma_skip_set(raw, (index * 64) as nat, 64);
                }
            }
            index += 1;
        }
        proof {
            assert forall|i: int| self.len <= i < self.vec@.len() * 64 implies raw[i] by {
                assert(self.raw(i));
            }
            Self::lemma_skip_set(raw, self.len as nat, (self.vec@.len() * 64 - self.len) as nat);
            Self::lemma_unset_below_agrees(raw, self@, self.len as nat);
        }
        unset
    }

    /// Sets the bits of the last word that lie beyond `len`.
    fn fill_unused(&mut self)
        requires
            old(self).vec@.len() == words_for(old(self).len as nat),
            forall|k: int| 0 <= k < old(self).vec@.len() ==> old(self).vec@[k] == 0,
        ensures
            final(self).wf(),
            final(self).len == old(self).len,
            forall|i: int| 0 <= i < final(self).len ==> !final(self).raw(i),
    {
        let unused: u64 = (self.vec.len() as u64) * 64 - self.len as u64;
        if unused > 0 {
            let index: usize = self.vec.len() - 1;
            self.vec.set(index, u64::MAX >> (64 - unused));
            proof {
                assert forall|i: int| 0 <= i < self.vec@.len() * 64 implies (self.raw(i) <==> i
                    >= self.len) by {
                    if i / 64 == index as int {
                        lemma_low_ones(unused, (63 - i % 64) as u64);
                    } else {
                        lemma_zero_word((63 - i % 64) as u64);
                    }
                }
            }
        } else {
            proof {
                assert forall|i: int| 0 <= i < self.len implies !self.raw(i) by {
                    lemma_zero_word((63 - i % 64) as u64);
                }
            }
        }
    }

    proof fn lemma_skip_set(raw: Seq<bool>, lo: nat, j: nat)
        requires
            lo + j <= raw.len(),
            forall|i: int| lo <= i < lo + j ==> raw[i],
        ensures
            unset_below(raw, lo + j) == unset_below(raw, lo),
        decreases j,
    {
        if j > 0 {
            Self::lemma_skip_set(raw, lo, (j - 1) as nat);
        }
    }

    proof fn lemma_unset_below_agrees(a: Seq<bool>, b: Seq<bool>, n: nat)
        requires
            n <= a.len(),
            n <= b.len(),
            forall|i: int| 0 <= i < n ==> a[i] == b[i],
        ensures
            unset_below(a, n) == unset_below(b, n),
        decreases n,
    {
        if n > 0 {
            Self::lemma_unset_below_agrees(a, b, (n - 1) as nat);
        }
    }
}

/// What `unset_indices` lists: every index whose bit is clear, once, in
/// ascending order, and no other.
pub proof fn law_unset_indices(bits: Seq<bool>)
    requires
        bits.len() <= u32::MAX,
    ensures
        forall|a: int, b: int|
            0 <= a < b < unset_indices(bits).len() ==> unset_indices(bits)[a] < unset_indices(
                bits,
            )[b],
        forall|k: int|
            0 <= k < unset_indices(bits).len() ==> (#[trigger] unset_indices(bits)[k])
                < bits.len() && !bits[unset_indices(bits)[k] as int],
        forall|i: int|
            0 <= i < bits.len() && !bits[i] ==> unset_indices(bits).contains(i as u32),
        unset_indices(bits).len() <= bits.len(),
{
    lemma_unset_below(bits, bits.len());
}

proof fn lemma_unset_below(bits: Seq<bool>, n: nat)
    requires
        n <= bits.len() <= u32::MAX,
    ensures
        forall|a: int, b: int|
            0 <= a < b < unset_below(bits, n).len() ==> unset_below(bits, n)[a] < unset_below(
                bits,
                n,
            )[b],
        forall|k: int|
            0 <= k < unset_below(bits, n).len() ==> (#[trigger] unset_below(bits, n)[k]) < n
                && !bits[unset_below(bits, n)[k] as int],
        forall|i: int| 0 <= i < n && !bits[i] ==> unset_below(bits, n).contains(i as u32),
        unset_below(bits, n).len() <= n,
    decreases n,
{
    if n > 0 {
        let prev = unset_below(bits, (n - 1) as nat);
        let cur = unset_below(bits, n);
        lemma_unset_below(bits, (n - 1) as nat);
        if !bits[n - 1] {
            assert(cur == prev.push((n - 1) as u32));
            assert(cur[cur.len() - 1] == (n - 1) as u32);
            assert forall|i: int| 0 <= i < n && !bits[i] implies cur.contains(i as u32) by {
                if i < n - 1 {
                    assert(prev.contains(i as u32));
                    let k = choose|k: int| 0 <= k < prev.len() && prev[k] == i as u32;
                    assert(cur[k] == i as u32);
                } else {
                    assert(cur[cur.len() - 1] == i as u32);
                }
            }
        }
    }
}

/// No index is listed exactly when every bit is set.
pub proof fn law_none_unset(bits: Seq<bool>)
    requires
        bits.len() <= u32::MAX,
    ensures
        unset_indices(bits).len() == 0 <==> (forall|i: int| 0 <= i < bits.len() ==> bits[i]),
{
    law_unset_indices(bits);
    let u = unset_indices(bits);
    if u.len() == 0 {
        assert forall|i: int| 0 <= i < bits.len() implies bits[i] by {
            if !bits[i] {
                assert(u.contains(i as u32));
            }
        }
    } else {
        assert(!bits[u[0] as int]);
    }
}

/// The bits of an array of `len` clear bits after the bits at `marks` have
/// been set, one after the other.
pub open spec fn after_sets(len: nat, marks: Seq<u32>) -> Seq<bool>
    decreases marks.len(),
{
    if marks.len() == 0 {
        Seq::new(len, |i: int| false)
    } else {
        after_sets(len, marks.drop_last()).update(marks.last() as int, true)
    }
}

/// After any bits of a clear array have been set, in any order and however
/// often, the indices of the clear bits are the indices that were not set,
/// each once, in ascending order.
pub proof fn law_unset_after_sets(len: nat, marks: Seq<u32>)
    requires
        len <= u32::MAX,
        forall|k: int| 0 <= k < marks.len() ==> marks[k] < len,
    ensures
        after_sets(len, marks).len() == len,
        forall|i: int| 0 <= i < len ==> (after_sets(len, marks)[i] <==> marks.contains(i as u32)),
        forall|a: int, b: int|
            0 <= a < b < unset_indices(after_sets(len, marks)).len() ==> unset_indices(
                after_sets(len, marks),
            )[a] < unset_indices(after_sets(len, marks))[b],
        forall|i: u32|
            unset_indices(after_sets(len, marks)).contains(i) <==> i < len && !marks.contains(i),
{
    lemma_after_sets(len, marks);
    let bits = after_sets(len, marks);
    law_unset_indices(bits);
    let u = unset_indices(bits);
    assert forall|i: u32| u.contains(i) <==> i < len && !marks.contains(i) by {
        if u.contains(i) {
            let k = choose|k: int| 0 <= k < u.len() && u[k] == i;
            assert(u[k] < bits.len() && !bits[u[k] as int]);
        }
        if i < len && !marks.contains(i) {
            assert(!bits[i as int]);
            assert(u.contains(i as int as u32));
        }
    }
}

proof fn lemma_after_sets(len: nat, marks: Seq<u32>)
    requires
        len <= u32::MAX,
        forall|k: int| 0 <= k < marks.len() ==> marks[k] < len,
    ensures
        after_sets(len, marks).len() == len,
        forall|i: int| 0 <= i < len ==> (after_sets(len, marks)[i] <==> marks.contains(i as u32)),
    decreases marks.len(),
{
    if marks.len() > 0 {
        let rest = marks.drop_last();
        assert forall|k: int| 0 <= k < rest.len() implies rest[k] < len by {
            assert(rest[k] == marks[k]);
        }
        lemma_after_sets(len, rest);
        assert forall|i: int| 0 <= i < len implies (after_sets(len, marks)[i] <==> marks.contains(
            i as u32,
        )) by {
            if marks.contains(i as u32) {
                let k = choose|k: int| 0 <= k < marks.len() && marks[k] == i as u32;
                if k < marks.len() - 1 {
                    assert(rest[k] == i as u32);
                }
            }
            if rest.contains(i as u32) {
                let k = choose|k: int| 0 <= k < rest.len() && rest[k] == i as u32;
                assert(marks[k] == i as u32);
            }
            if i == marks.last() {
                assert(marks[marks.len() - 1] == i as u32);
            } else {
                assert(after_sets(len, marks)[i] == after_sets(len, rest)[i]);
            }
        }
    }
}

} // verus!
