//! Vectors of entries kept sorted by key, one entry per key: the ordered
//! maps of the index builder.

use vstd::prelude::*;

use crate::strs::{lemma_str_lt_order, str_eq, str_less, str_lt};

verus! {

/// Keys with a strict total order on their views.
pub trait OrderedKey: View + Sized {
    spec fn key_lt(a: Self::V, b: Self::V) -> bool;

    proof fn lemma_key_order(a: Self::V, b: Self::V, c: Self::V)
        ensures
            !Self::key_lt(a, a),
            Self::key_lt(a, b) && Self::key_lt(b, c) ==> Self::key_lt(a, c),
            Self::key_lt(a, b) ==> !Self::key_lt(b, a),
            a == b || Self::key_lt(a, b) || Self::key_lt(b, a),
    ;

    fn less(&self, other: &Self) -> (r: bool)
        ensures
            r == Self::key_lt(self@, other@),
    ;

    fn same(&self, other: &Self) -> (r: bool)
        ensures
            r == (self@ == other@),
    ;
}

/// Strings are ordered by their UTF-8 bytes, as `Ord for String` orders them.
impl OrderedKey for String {
    open spec fn key_lt(a: Seq<char>, b: Seq<char>) -> bool {
        str_lt(a, b)
    }

    proof fn lemma_key_order(a: Seq<char>, b: Seq<char>, c: Seq<char>) {
        lemma_str_lt_order(a, b, c);
    }

    fn less(&self, other: &Self) -> (r: bool) {
        str_less(self.as_str(), other.as_str())
    }

    fn same(&self, other: &Self) -> (r: bool) {
        str_eq(self.as_str(), other.as_str())
    }
}

/// The keys of the entries.
pub open spec fn entry_keys<K: OrderedKey, T>(v: Seq<(K, T)>) -> Seq<K::V> {
    v.map_values(|e: (K, T)| e.0@)
}

/// The entries are strictly sorted by key.
pub open spec fn sorted_by_key<K: OrderedKey, T>(v: Seq<(K, T)>) -> bool {
    forall|i: int, j: int| 0 <= i < j < v.len() ==> K::key_lt(#[trigger] v[i].0@, #[trigger] v[j].0@)
}

/// No entry of `input` before the `i`-th has its key.
pub open spec fn first_with_key<K: OrderedKey, T>(input: Seq<(K, T)>, i: int) -> bool {
    forall|k: int| 0 <= k < i ==> (#[trigger] input[k]).0@ != input[i].0@
}

/// `out` holds, sorted by key, the first entry of `input` for each key that
/// occurs in `input`: what an ordered map keeps when it inserts the entries
/// of `input` in order without replacing present keys.
pub open spec fn first_per_key<K: OrderedKey, T>(out: Seq<(K, T)>, input: Seq<(K, T)>) -> bool {
    &&& sorted_by_key(out)
    &&& forall|i: int| 0 <= i < input.len() ==> entry_keys(out).contains(#[trigger] input[i].0@)
    &&& forall|j: int|
        #![trigger out[j]]
        0 <= j < out.len() ==> exists|i: int|
            0 <= i < input.len() && #[trigger] input[i] == out[j] && first_with_key(input, i)
}

/// Insert `entry` at its place by key, unless its key is already present.
pub fn insert_first<K: OrderedKey, T>(out: &mut Vec<(K, T)>, entry: (K, T))
    requires
        sorted_by_key(old(out)@),
    ensures
        sorted_by_key(final(out)@),
        entry_keys(old(out)@).contains(entry.0@) ==> final(out)@ == old(out)@,
        !entry_keys(old(out)@).contains(entry.0@) ==> exists|p: int|
            0 <= p <= old(out)@.len() && final(out)@ == #[trigger] old(out)@.insert(p, entry),
{
    let ghost o = out@;
    let mut p: usize = 0;
    while p < out.len() && out[p].0.less(&entry.0)
        invariant
            p <= out@.len(),
            out@ == o,
            sorted_by_key(o),
            forall|k: int| 0 <= k < p ==> K::key_lt(#[trigger] o[k].0@, entry.0@),
        decreases out@.len() - p,
    {
        p += 1;
    }
    if p < out.len() && out[p].0.same(&entry.0) {
        assert(entry_keys(o)[p as int] == entry.0@);
        return;
    }
    proof {
        // Every key before `p` is smaller than the entry's, every key from
        // `p` on is larger, so the key is absent and the insertion sorted.
        if p < o.len() {
            K::lemma_key_order(o[p as int].0@, entry.0@, entry.0@);
        }
        assert forall|k: int| p <= k < o.len() implies K::key_lt(entry.0@, #[trigger] o[k].0@) by {
            K::lemma_key_order(entry.0@, o[p as int].0@, o[k].0@);
            if k > p {
                assert(K::key_lt(o[p as int].0@, o[k].0@));
            }
        }
        assert(!entry_keys(o).contains(entry.0@)) by {
            if entry_keys(o).contains(entry.0@) {
                let k = choose|k: int| 0 <= k < entry_keys(o).len() && entry_keys(o)[k] == entry.0@;
                assert(o[k].0@ == entry.0@);
                K::lemma_key_order(entry.0@, entry.0@, entry.0@);
                if k < p {
                    assert(K::key_lt(o[k].0@, entry.0@));
                } else {
                    assert(K::key_lt(entry.0@, o[k].0@));
                }
            }
        }
    }
    out.insert(p, entry);
    proof {
        let n = out@;
        assert(n == o.insert(p as int, entry));
        assert forall|i: int, j: int| 0 <= i < j < n.len() implies K::key_lt(#[trigger] n[i].0@, #[trigger] n[j].0@) by {
            if i < p && j < p {
            } else if i < p && j == p {
            } else if i < p && j > p {
                assert(n[j] == o[j - 1]);
                K::lemma_key_order(o[i].0@, entry.0@, o[j - 1].0@);
            } else if i == p {
                assert(n[j] == o[j - 1]);
            } else {
                assert(n[i] == o[i - 1]);
                assert(n[j] == o[j - 1]);
            }
        }
    }
}

/// Keep the first entry of `input` for each key, sorted by key, as an
/// ordered map does that inserts the entries in order without replacing
/// present keys.
pub fn first_entries_by_key<K: OrderedKey, T>(input: Vec<(K, T)>) -> (r: Vec<(K, T)>)
    ensures
        first_per_key(r@, input@),
{
    let ghost inp = input@;
    let n = input.len();
    let mut out: Vec<(K, T)> = Vec::new();
    let mut rest = input;
    let mut i: usize = 0;
    assert(rest@ =~= inp.subrange(0, inp.len() as int));
    assert(out@.len() == 0);
    while rest.len() > 0
        invariant
            i + rest@.len() == inp.len(),
            n == inp.len(),
            rest@ == inp.subrange(i as int, inp.len() as int),
            first_per_key(out@, inp.subrange(0, i as int)),
        decreases rest@.len(),
    {
        let ghost old_out = out@;
        let entry = rest.remove(0);
        assert(entry == inp[i as int]);
        assert(rest@ =~= inp.subrange(i + 1, inp.len() as int));
        let ghost prefix = inp.subrange(0, i as int);
        let ghost next = inp.subrange(0, i + 1);
        assert(next == prefix.push(entry));
        insert_first(&mut out, entry);
        proof {
            lemma_first_per_key_step(old_out, out@, prefix, entry);
        }
        i += 1;
    }
    assert(inp.subrange(0, i as int) =~= inp);
    out
}

proof fn lemma_first_per_key_step<K: OrderedKey, T>(
    out: Seq<(K, T)>,
    out2: Seq<(K, T)>,
    input: Seq<(K, T)>,
    entry: (K, T),
)
    requires
        first_per_key(out, input),
        sorted_by_key(out2),
        entry_keys(out).contains(entry.0@) ==> out2 == out,
        !entry_keys(out).contains(entry.0@) ==> exists|p: int|
            0 <= p <= out.len() && out2 == #[trigger] out.insert(p, entry),
    ensures
        first_per_key(out2, input.push(entry)),
{
    let next = input.push(entry);
    let n = input.len() as int;
    assert(next[n] == entry);
    if entry_keys(out).contains(entry.0@) {
        assert forall|i: int| 0 <= i < next.len() implies entry_keys(out2).contains(#[trigger] next[i].0@) by {
            if i < n {
                assert(next[i] == input[i]);
            }
        }
        assert forall|j: int| #![trigger out2[j]] 0 <= j < out2.len() implies exists|i: int|
            0 <= i < next.len() && #[trigger] next[i] == out2[j] && first_with_key(next, i) by {
            let i = choose|i: int| 0 <= i < input.len() && #[trigger] input[i] == out[j] && first_with_key(input, i);
            assert(next[i] == input[i]);
            assert forall|k: int| 0 <= k < i implies (#[trigger] next[k]).0@ != next[i].0@ by {
                assert(next[k] == input[k]);
            }
        }
    } else {
        let p = choose|p: int| 0 <= p <= out.len() && out2 == out.insert(p, entry);
        assert forall|i: int| 0 <= i < next.len() implies entry_keys(out2).contains(#[trigger] next[i].0@) by {
            if i < n {
                assert(next[i] == input[i]);
                assert(entry_keys(out).contains(input[i].0@));
                let k = choose|k: int| 0 <= k < entry_keys(out).len() && entry_keys(out)[k] == input[i].0@;
                if k < p {
                    assert(out2[k] == out[k]);
                    assert(entry_keys(out2)[k] == input[i].0@);
                } else {
                    assert(out2[k + 1] == out[k]);
                    assert(entry_keys(out2)[k + 1] == input[i].0@);
                }
            } else {
                assert(out2[p] == entry);
                assert(entry_keys(out2)[p] == entry.0@);
            }
        }
        assert forall|j: int| #![trigger out2[j]] 0 <= j < out2.len() implies exists|i: int|
            0 <= i < next.len() && #[trigger] next[i] == out2[j] && first_with_key(next, i) by {
            if j == p {
                assert(next[n] == out2[j]);
                assert forall|k: int| 0 <= k < n implies (#[trigger] next[k]).0@ != next[n].0@ by {
                    assert(next[k] == input[k]);
                    assert(entry_keys(out).contains(input[k].0@));
                }
            } else {
                let jj = if j < p { j } else { j - 1 };
                assert(out2[j] == out[jj]);
                let i = choose|i: int| 0 <= i < input.len() && #[trigger] input[i] == out[jj] && first_with_key(input, i);
                assert(next[i] == input[i]);
                assert forall|k: int| 0 <= k < i implies (#[trigger] next[k]).0@ != next[i].0@ by {
                    assert(next[k] == input[k]);
                }
            }
        }
    }
}


/// The views of the entries.
pub open spec fn entries_view<K: OrderedKey, T: View>(v: Seq<(K, T)>) -> Seq<(K::V, T::V)> {
    v.map_values(|e: (K, T)| (e.0@, e.1@))
}

/// The keys of viewed entries.
pub open spec fn view_keys<K: OrderedKey, V>(v: Seq<(K::V, V)>) -> Seq<K::V> {
    v.map_values(|e: (K::V, V)| e.0)
}

/// Index of the first viewed entry of `input` at or after `k` with key
/// `key`, or the length of `input`.
pub open spec fn first_key_index<KV, V>(input: Seq<(KV, V)>, key: KV, k: int) -> int
    decreases input.len() - k,
{
    if k < 0 || k >= input.len() {
        input.len() as int
    } else if input[k].0 == key {
        k
    } else {
        first_key_index(input, key, k + 1)
    }
}

/// `first_per_key` on the views of entries: `out` is sorted by key, has
/// every key of `input`, and each of its entries is the first entry of
/// `input` with that key.
pub open spec fn first_per_key_view<K: OrderedKey, V>(out: Seq<(K::V, V)>, input: Seq<(K::V, V)>) -> bool {
    &&& forall|i: int, j: int| 0 <= i < j < out.len() ==> K::key_lt(#[trigger] out[i].0, #[trigger] out[j].0)
    &&& forall|i: int| 0 <= i < input.len() ==> view_keys::<K, V>(out).contains(#[trigger] input[i].0)
    &&& forall|j: int|
        0 <= j < out.len() ==> first_key_index(input, (#[trigger] out[j]).0, 0) < input.len()
            && input[first_key_index(input, out[j].0, 0)] == out[j]
}

/// `first_key_index` lies between its start and the length.
pub proof fn lemma_first_key_index_bounds<KV, V>(input: Seq<(KV, V)>, key: KV, k: int)
    requires
        0 <= k <= input.len(),
    ensures
        k <= first_key_index(input, key, k) <= input.len(),
    decreases input.len() - k,
{
    if k < input.len() && input[k].0 != key {
        lemma_first_key_index_bounds(input, key, k + 1);
    }
}

proof fn lemma_first_key_index<KV, V>(input: Seq<(KV, V)>, key: KV, k: int, i: int)
    requires
        0 <= k <= i < input.len(),
        input[i].0 == key,
        forall|m: int| k <= m < i ==> (#[trigger] input[m]).0 != key,
    ensures
        first_key_index(input, key, k) == i,
    decreases i - k,
{
    if k < i {
        lemma_first_key_index(input, key, k + 1, i);
    }
}

/// What `first_per_key` says of entries it says of their views.
pub proof fn lemma_first_per_key_view<K: OrderedKey, T: View>(out: Seq<(K, T)>, input: Seq<(K, T)>)
    requires
        first_per_key(out, input),
    ensures
        first_per_key_view::<K, T::V>(entries_view(out), entries_view(input)),
{
    let ov = entries_view(out);
    let iv = entries_view(input);
    assert forall|i: int, j: int| 0 <= i < j < ov.len() implies K::key_lt(#[trigger] ov[i].0, #[trigger] ov[j].0) by {
        assert(K::key_lt(out[i].0@, out[j].0@));
    }
    assert forall|i: int| 0 <= i < iv.len() implies view_keys::<K, T::V>(ov).contains(#[trigger] iv[i].0) by {
        assert(entry_keys(out).contains(input[i].0@));
        let j = choose|j: int| 0 <= j < entry_keys(out).len() && entry_keys(out)[j] == input[i].0@;
        assert(view_keys::<K, T::V>(ov)[j] == iv[i].0);
    }
    assert forall|j: int| 0 <= j < ov.len() implies first_key_index(iv, (#[trigger] ov[j]).0, 0) < iv.len()
        && iv[first_key_index(iv, ov[j].0, 0)] == ov[j] by {
        let i = choose|i: int| 0 <= i < input.len() && #[trigger] input[i] == out[j] && first_with_key(input, i);
        assert(iv[i] == ov[j]);
        assert forall|m: int| 0 <= m < i implies (#[trigger] iv[m]).0 != ov[j].0 by {
            assert(input[m].0@ != input[i].0@);
        }
        lemma_first_key_index(iv, ov[j].0, 0, i);
    }
}

/// Two sequences strictly sorted by key, with the same keys, have the same
/// keys in the same order.
proof fn lemma_sorted_keys_unique<K: OrderedKey>(s: Seq<K::V>, t: Seq<K::V>)
    requires
        forall|i: int, j: int| 0 <= i < j < s.len() ==> K::key_lt(#[trigger] s[i], #[trigger] s[j]),
        forall|i: int, j: int| 0 <= i < j < t.len() ==> K::key_lt(#[trigger] t[i], #[trigger] t[j]),
        forall|c: K::V| #![trigger s.contains(c)] #![trigger t.contains(c)] s.contains(c) <==> t.contains(c),
    ensures
        s == t,
    decreases s.len(),
{
    if s.len() == 0 {
        if t.len() > 0 {
            assert(t.contains(t[0]));
            assert(s.contains(t[0]));
        }
        assert(s =~= t);
    } else {
        assert(s.contains(s[0]));
        assert(t.contains(s[0]));
        let j = choose|j: int| 0 <= j < t.len() && t[j] == s[0];
        assert(t.contains(t[0]));
        assert(s.contains(t[0]));
        let i = choose|i: int| 0 <= i < s.len() && s[i] == t[0];
        K::lemma_key_order(s[0], s[i], s[0]);
        K::lemma_key_order(t[0], t[j], t[0]);
        if j > 0 {
            assert(K::key_lt(t[0], t[j]));
            if i > 0 {
                assert(K::key_lt(s[0], s[i]));
            }
        }
        assert(t[0] == s[0]);
        let s1 = s.drop_first();
        let t1 = t.drop_first();
        assert forall|c: K::V| #![trigger s1.contains(c)] #![trigger t1.contains(c)] s1.contains(c) <==> t1.contains(c) by {
            if s1.contains(c) {
                let k = choose|k: int| 0 <= k < s1.len() && s1[k] == c;
                assert(s[k + 1] == c);
                assert(s.contains(c));
                let m = choose|m: int| 0 <= m < t.len() && t[m] == c;
                assert(K::key_lt(s[0], s[k + 1]));
                K::lemma_key_order(s[0], s[0], s[0]);
                assert(m != 0);
                assert(t1[m - 1] == c);
            }
            if t1.contains(c) {
                let k = choose|k: int| 0 <= k < t1.len() && t1[k] == c;
                assert(t[k + 1] == c);
                assert(t.contains(c));
                let m = choose|m: int| 0 <= m < s.len() && s[m] == c;
                assert(K::key_lt(t[0], t[k + 1]));
                K::lemma_key_order(t[0], t[0], t[0]);
                assert(m != 0);
                assert(s1[m - 1] == c);
            }
        }
        assert forall|a: int, b: int| 0 <= a < b < s1.len() implies K::key_lt(#[trigger] s1[a], #[trigger] s1[b]) by {
            assert(K::key_lt(s[a + 1], s[b + 1]));
        }
        assert forall|a: int, b: int| 0 <= a < b < t1.len() implies K::key_lt(#[trigger] t1[a], #[trigger] t1[b]) by {
            assert(K::key_lt(t[a + 1], t[b + 1]));
        }
        lemma_sorted_keys_unique::<K>(s1, t1);
        assert forall|k: int| 0 <= k < s.len() implies s[k] == t[k] by {
            if k > 0 {
                assert(s[k] == s1[k - 1]);
                assert(t[k] == t1[k - 1]);
            }
        }
        assert(s =~= t);
    }
}

proof fn lemma_first_key_index_found<KV, V>(input: Seq<(KV, V)>, key: KV, k: int)
    requires
        0 <= k,
        first_key_index(input, key, k) < input.len(),
    ensures
        input[first_key_index(input, key, k)].0 == key,
    decreases input.len() - k,
{
    if k < input.len() && input[k].0 != key {
        lemma_first_key_index_found(input, key, k + 1);
    }
}

/// `first_per_key_view` determines its output: the first entry of each key
/// of `input`, in key order.
pub proof fn lemma_first_per_key_view_unique<K: OrderedKey, V>(o1: Seq<(K::V, V)>, o2: Seq<(K::V, V)>, input: Seq<(K::V, V)>)
    requires
        first_per_key_view::<K, V>(o1, input),
        first_per_key_view::<K, V>(o2, input),
    ensures
        o1 == o2,
{
    let k1 = view_keys::<K, V>(o1);
    let k2 = view_keys::<K, V>(o2);
    assert forall|c: K::V| #![trigger k1.contains(c)] #![trigger k2.contains(c)] k1.contains(c) <==> k2.contains(c) by {
        if k1.contains(c) {
            let j = choose|j: int| 0 <= j < k1.len() && k1[j] == c;
            assert(o1[j].0 == c);
            let f = first_key_index(input, c, 0);
            lemma_first_key_index_bounds(input, c, 0);
            assert(input[f] == o1[j]);
            assert(k2.contains(input[f].0));
        }
        if k2.contains(c) {
            let j = choose|j: int| 0 <= j < k2.len() && k2[j] == c;
            assert(o2[j].0 == c);
            let f = first_key_index(input, c, 0);
            lemma_first_key_index_bounds(input, c, 0);
            assert(input[f] == o2[j]);
            assert(k1.contains(input[f].0));
        }
    }
    assert forall|i: int, j: int| 0 <= i < j < k1.len() implies K::key_lt(#[trigger] k1[i], #[trigger] k1[j]) by {
        assert(K::key_lt(o1[i].0, o1[j].0));
    }
    assert forall|i: int, j: int| 0 <= i < j < k2.len() implies K::key_lt(#[trigger] k2[i], #[trigger] k2[j]) by {
        assert(K::key_lt(o2[i].0, o2[j].0));
    }
    lemma_sorted_keys_unique::<K>(k1, k2);
    assert(o1.len() == k1.len() && o2.len() == k2.len());
    assert forall|j: int| 0 <= j < o1.len() implies o1[j] == o2[j] by {
        assert(k1[j] == k2[j]);
        assert(o1[j].0 == o2[j].0);
    }
    assert(o1 =~= o2);
}

} // verus!
