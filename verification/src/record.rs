//! Collecting the field values of a span or an event, in the order of the
//! fields of their callsite.

use vstd::prelude::*;
use crate::text::same_text;

verus! {

/// The keys of `s` never decrease.
pub open spec fn sorted_by_index<V>(s: Seq<(usize, V)>) -> bool {
    forall|i: int, j: int| 0 <= i < j < s.len() ==> #[trigger] s[i].0 <= #[trigger] s[j].0
}

/// `out` holds the items of `items`, each taken once, where `perm[i]` tells
/// the position in `items` of `out[i]`, and items of equal key keep their order.
pub open spec fn stable_arrangement<V>(items: Seq<(usize, V)>, out: Seq<(usize, V)>, perm: Seq<int>) -> bool {
    &&& perm.len() == items.len()
    &&& out.len() == items.len()
    &&& forall|i: int| 0 <= i < perm.len() ==> 0 <= #[trigger] perm[i] < items.len()
    &&& forall|i: int, j: int| 0 <= i < j < perm.len() ==> #[trigger] perm[i] != #[trigger] perm[j]
    &&& forall|i: int| 0 <= i < out.len() ==> #[trigger] out[i] == items[perm[i]]
    &&& forall|i: int, j: int|
        0 <= i < j < out.len() && out[i].0 == out[j].0 ==> #[trigger] perm[i] < #[trigger] perm[j]
}

/// `out` is `items` sorted by key, items of equal key keeping their order.
pub open spec fn is_stable_sort<V>(items: Seq<(usize, V)>, out: Seq<(usize, V)>) -> bool {
    &&& sorted_by_index(out)
    &&& exists|perm: Seq<int>| stable_arrangement(items, out, perm)
}

/// The position of the first item of least key in `s`.
fn first_least<V>(s: &Vec<(usize, V)>) -> (m: usize)
    requires
        s@.len() > 0,
    ensures
        m < s@.len(),
        forall|k: int| 0 <= k < s@.len() ==> s@[m as int].0 <= #[trigger] s@[k].0,
        forall|k: int| 0 <= k < m ==> #[trigger] s@[k].0 > s@[m as int].0,
{
    let mut m: usize = 0;
    let mut i: usize = 1;
    while i < s.len()
        invariant
            s@.len() > 0,
            m < i <= s@.len(),
            forall|k: int| 0 <= k < i ==> s@[m as int].0 <= #[trigger] s@[k].0,
            forall|k: int| 0 <= k < m ==> #[trigger] s@[k].0 > s@[m as int].0,
        decreases s@.len() - i,
    {
        if s[i].0 < s[m].0 {
            m = i;
        }
        i = i + 1;
    }
    m
}

/// Sorts `items` by key; items of equal key keep the order they had.
pub fn sort_by_index<V>(items: Vec<(usize, V)>) -> (out: Vec<(usize, V)>)
    ensures
        is_stable_sort(items@, out@),
{
    let ghost orig = items@;
    let n = items.len();
    let mut rest = items;
    let mut out: Vec<(usize, V)> = Vec::new();
    let ghost mut pos: Seq<int> = Seq::new(n as nat, |k: int| k);
    let ghost mut perm: Seq<int> = Seq::empty();
    while rest.len() > 0
        invariant
            n == orig.len(),
            rest@.len() == pos.len(),
            out@.len() == perm.len(),
            out@.len() + rest@.len() == n,
            forall|k: int| 0 <= k < rest@.len() ==> #[trigger] rest@[k] == orig[pos[k]],
            forall|k: int| 0 <= k < pos.len() ==> 0 <= #[trigger] pos[k] < n,
            forall|a: int, b: int| 0 <= a < b < pos.len() ==> #[trigger] pos[a] < #[trigger] pos[b],
            forall|k: int| 0 <= k < out@.len() ==> #[trigger] out@[k] == orig[perm[k]],
            forall|k: int| 0 <= k < perm.len() ==> 0 <= #[trigger] perm[k] < n,
            forall|a: int, b: int| 0 <= a < b < perm.len() ==> #[trigger] perm[a] != #[trigger] perm[b],
            forall|a: int, b: int| 0 <= a < perm.len() && 0 <= b < pos.len() ==> #[trigger] perm[a] != #[trigger] pos[b],
            sorted_by_index(out@),
            forall|a: int, b: int|
                0 <= a < out@.len() && 0 <= b < rest@.len() ==> #[trigger] out@[a].0 <= #[trigger] rest@[b].0,
            forall|a: int, b: int|
                0 <= a < out@.len() && 0 <= b < rest@.len() && out@[a].0 == rest@[b].0
                    ==> #[trigger] perm[a] < #[trigger] pos[b],
            forall|a: int, b: int|
                0 <= a < b < out@.len() && out@[a].0 == out@[b].0 ==> #[trigger] perm[a] < #[trigger] perm[b],
        decreases rest@.len(),
    {
        let m = first_least(&rest);
        let ghost old_rest = rest@;
        let ghost old_out = out@;
        let ghost old_pos = pos;
        let ghost old_perm = perm;
        let ghost pm = pos[m as int];
        let item = rest.remove(m);
        out.push(item);
        proof {
            perm = perm.push(pm);
            pos = pos.remove(m as int);
            assert forall|k: int| 0 <= k < rest@.len() implies #[trigger] rest@[k] == orig[pos[k]] by {
                if k < m {
                    assert(rest@[k] == old_rest[k]);
                } else {
                    assert(rest@[k] == old_rest[k + 1]);
                }
            }
            assert forall|a: int, b: int| 0 <= a < b < pos.len() implies #[trigger] pos[a] < #[trigger] pos[b] by {
                let a0 = if a < m { a } else { a + 1 };
                let b0 = if b < m { b } else { b + 1 };
                assert(pos[a] == old_pos[a0]);
                assert(pos[b] == old_pos[b0]);
            }
            assert forall|k: int| 0 <= k < pos.len() implies 0 <= #[trigger] pos[k] < n by {
                let k0 = if k < m { k } else { k + 1 };
                assert(pos[k] == old_pos[k0]);
            }
            assert forall|k: int| 0 <= k < out@.len() implies #[trigger] out@[k] == orig[perm[k]] by {
                if k < old_out.len() {
                    assert(out@[k] == old_out[k]);
                    assert(perm[k] == old_perm[k]);
                }
            }
            assert forall|a: int, b: int| 0 <= a < b < perm.len() implies #[trigger] perm[a] != #[trigger] perm[b] by {
                if b == old_perm.len() {
                    assert(perm[a] == old_perm[a]);
                    assert(old_perm[a] != old_pos[m as int]);
                } else {
                    assert(perm[a] == old_perm[a]);
                    assert(perm[b] == old_perm[b]);
                }
            }
            assert forall|a: int, b: int| 0 <= a < perm.len() && 0 <= b < pos.len() implies #[trigger] perm[a] != #[trigger] pos[b] by {
                let b0 = if b < m { b } else { b + 1 };
                assert(pos[b] == old_pos[b0]);
                if a == old_perm.len() {
                    assert(b0 != m);
                } else {
                    assert(perm[a] == old_perm[a]);
                }
            }
            assert forall|i: int, j: int| 0 <= i < j < out@.len() implies #[trigger] out@[i].0 <= #[trigger] out@[j].0 by {
                if j == old_out.len() {
                    assert(out@[i] == old_out[i]);
                    assert(old_out[i].0 <= old_rest[m as int].0);
                } else {
                    assert(out@[i] == old_out[i]);
                    assert(out@[j] == old_out[j]);
                }
            }
            assert forall|a: int, b: int|
                0 <= a < out@.len() && 0 <= b < rest@.len() implies #[trigger] out@[a].0 <= #[trigger] rest@[b].0 by {
                let b0 = if b < m { b } else { b + 1 };
                assert(rest@[b] == old_rest[b0]);
                if a < old_out.len() {
                    assert(out@[a] == old_out[a]);
                } else {
                    assert(out@[a] == old_rest[m as int]);
                }
            }
            assert forall|a: int, b: int|
                0 <= a < out@.len() && 0 <= b < rest@.len() && out@[a].0 == rest@[b].0
                    implies #[trigger] perm[a] < #[trigger] pos[b] by {
                let b0 = if b < m { b } else { b + 1 };
                assert(rest@[b] == old_rest[b0]);
                assert(pos[b] == old_pos[b0]);
                if a < old_out.len() {
                    assert(out@[a] == old_out[a]);
                    assert(perm[a] == old_perm[a]);
                } else {
                    assert(out@[a] == old_rest[m as int]);
                    assert(perm[a] == old_pos[m as int]);
                    assert(b0 > m);
                }
            }
            assert forall|a: int, b: int|
                0 <= a < b < out@.len() && out@[a].0 == out@[b].0 implies #[trigger] perm[a] < #[trigger] perm[b] by {
                assert(out@[a] == old_out[a]);
                assert(perm[a] == old_perm[a]);
                if b < old_out.len() {
                    assert(out@[b] == old_out[b]);
                    assert(perm[b] == old_perm[b]);
                } else {
                    assert(out@[b] == old_rest[m as int]);
                    assert(perm[b] == old_pos[m as int]);
                }
            }
        }
    }
    assert(stable_arrangement(orig, out@, perm));
    out
}


/// The values of `s`, without their keys.
pub open spec fn values_of<K, V>(s: Seq<(K, V)>) -> Seq<V> {
    Seq::new(s.len(), |i: int| s[i].1)
}

/// `s` with every item dropped whose key equals that of the item before it:
/// of each run of equal keys only the first item stays.
pub open spec fn first_of_runs<V>(s: Seq<(usize, V)>) -> Seq<(usize, V)>
    decreases s.len(),
{
    if s.len() <= 1 {
        s
    } else {
        let r = first_of_runs(s.drop_last());
        if s.last().0 == s[s.len() - 2].0 {
            r
        } else {
            r.push(s.last())
        }
    }
}

/// The names of `names` paired, position by position, with the values of
/// `values`, as far as the shorter of the two goes.
pub open spec fn zip_named<V>(names: Seq<(usize, String)>, values: Seq<(usize, V)>) -> Seq<(String, V)> {
    let n = if names.len() <= values.len() { names.len() } else { values.len() };
    Seq::new(n, |i: int| (names[i].1, values[i].1))
}

/// Whether one of the pairs of `s` is named `name`.
pub open spec fn name_in<V>(s: Seq<(String, V)>, name: Seq<char>) -> bool {
    exists|j: int| 0 <= j < s.len() && #[trigger] s[j].0@ == name
}

/// `s` with every pair dropped that a later pair of the same name follows:
/// of the pairs of each name only the last stays, as in a map filled from
/// `s` in order.
pub open spec fn last_per_name<V>(s: Seq<(String, V)>) -> Seq<(String, V)>
    decreases s.len(),
{
    if s.len() == 0 {
        s
    } else {
        let tail = s.subrange(1, s.len() as int);
        if name_in(tail, s[0].0@) {
            last_per_name(tail)
        } else {
            seq![s[0]] + last_per_name(tail)
        }
    }
}

/// Keeping the last pair of each name keeps every name, and no name twice.
pub proof fn lemma_last_per_name<V>(s: Seq<(String, V)>)
    ensures
        forall|name: Seq<char>| name_in(last_per_name(s), name) <==> name_in(s, name),
        forall|i: int, j: int| 0 <= i < j < last_per_name(s).len()
            ==> #[trigger] last_per_name(s)[i].0@ != #[trigger] last_per_name(s)[j].0@,
    decreases s.len(),
{
    if s.len() > 0 {
        let tail = s.subrange(1, s.len() as int);
        lemma_last_per_name(tail);
        let rest = last_per_name(tail);
        assert forall|name: Seq<char>| name_in(tail, name) ==> name_in(s, name) by {
            if name_in(tail, name) {
                let j = choose|j: int| 0 <= j < tail.len() && #[trigger] tail[j].0@ == name;
                assert(s[j + 1] == tail[j]);
            }
        }
        assert forall|name: Seq<char>| name_in(s, name) ==> name == s[0].0@ || name_in(tail, name) by {
            if name_in(s, name) {
                let j = choose|j: int| 0 <= j < s.len() && #[trigger] s[j].0@ == name;
                if j > 0 {
                    assert(tail[j - 1] == s[j]);
                }
            }
        }
        if !name_in(tail, s[0].0@) {
            let all = seq![s[0]] + rest;
            assert forall|name: Seq<char>| name_in(all, name) <==> name_in(s, name) by {
                if name_in(all, name) {
                    let j = choose|j: int| 0 <= j < all.len() && #[trigger] all[j].0@ == name;
                    if j > 0 {
                        assert(all[j] == rest[j - 1]);
                        assert(name_in(rest, name));
                    } else {
                        assert(s[0].0@ == name);
                    }
                }
                if name_in(s, name) {
                    if name == s[0].0@ {
                        assert(all[0].0@ == name);
                    } else {
                        assert(name_in(rest, name));
                        let j = choose|j: int| 0 <= j < rest.len() && #[trigger] rest[j].0@ == name;
                        assert(all[j + 1] == rest[j]);
                    }
                }
            }
            assert forall|i: int, j: int| 0 <= i < j < all.len() implies #[trigger] all[i].0@ != #[trigger] all[j].0@ by {
                assert(all[j] == rest[j - 1]);
                if i > 0 {
                    assert(all[i] == rest[i - 1]);
                } else if all[j].0@ == s[0].0@ {
                    assert(name_in(rest, s[0].0@));
                }
            }
        }
    }
}

/// `pairs` with every pair dropped that a later pair of the same name follows.
pub fn keep_last_per_name<V>(pairs: Vec<(String, V)>) -> (out: Vec<(String, V)>)
    ensures
        out@ == last_per_name(pairs@),
{
    let ghost p0 = pairs@;
    let ghost n = p0.len() as int;
    let mut pairs = pairs;
    let mut out: Vec<(String, V)> = Vec::new();
    assert(p0.subrange(n, n) =~= Seq::<(String, V)>::empty());
    while pairs.len() > 0
        invariant
            pairs@ == p0.subrange(0, pairs@.len() as int),
            pairs@.len() <= n,
            n == p0.len(),
            out@ == last_per_name(p0.subrange(pairs@.len() as int, n)),
        decreases pairs@.len(),
    {
        let ghost i = pairs@.len() - 1;
        let e = pairs.pop().unwrap();
        let ghost tail = p0.subrange(i + 1, n);
        let ghost whole = p0.subrange(i, n);
        proof {
            lemma_last_per_name(tail);
            assert(whole.subrange(1, whole.len() as int) =~= tail);
            assert(whole[0] == e);
        }
        let mut found = false;
        let mut k: usize = 0;
        while k < out.len()
            invariant
                k <= out@.len(),
                found <==> exists|m: int| 0 <= m < k && #[trigger] out@[m].0@ == e.0@,
            decreases out@.len() - k,
        {
            if same_text(out[k].0.as_str(), e.0.as_str()) {
                found = true;
            }
            k = k + 1;
        }
        assert(found == name_in(out@, e.0@));
        if !found {
            out.insert(0, e);
            assert(out@ =~= seq![whole[0]] + last_per_name(tail));
        }
        assert(pairs@ =~= p0.subrange(0, pairs@.len() as int));
    }
    assert(p0.subrange(0, n) =~= p0);
    out
}

/// The values of `s`, without their keys, in order.
pub fn strip_keys<V>(s: Vec<(usize, V)>) -> (out: Vec<V>)
    ensures
        out@ == values_of(s@),
{
    let ghost all = s@;
    let mut rest = s;
    let mut out: Vec<V> = Vec::new();
    while rest.len() > 0
        invariant
            out@.len() + rest@.len() == all.len(),
            rest@ == all.subrange(out@.len() as int, all.len() as int),
            out@ == values_of(all.take(out@.len() as int)),
        decreases rest@.len(),
    {
        let ghost k: int = out@.len() as int;
        let item = rest.remove(0);
        out.push(item.1);
        assert(rest@ =~= all.subrange(k + 1, all.len() as int));
        assert(out@ =~= values_of(all.take(k + 1)));
    }
    assert(all.take(all.len() as int) =~= all);
    out
}

/// Keeps, of each run of items with equal keys, only the first.
fn dedup_by_index<V>(s: Vec<(usize, V)>) -> (out: Vec<(usize, V)>)
    ensures
        out@ == first_of_runs(s@),
{
    let ghost all = s@;
    let n = s.len();
    let mut rest = s;
    let mut out: Vec<(usize, V)> = Vec::new();
    let mut last: usize = 0;
    let mut k: usize = 0;
    while rest.len() > 0
        invariant
            n == all.len(),
            k + rest@.len() == all.len(),
            rest@ == all.subrange(k as int, all.len() as int),
            out@ == first_of_runs(all.take(k as int)),
            k > 0 ==> last == all[k - 1].0,
        decreases rest@.len(),
    {
        let item = rest.remove(0);
        let key = item.0;
        proof {
            assert(item == all[k as int]);
            assert(all.take(k + 1).drop_last() =~= all.take(k as int));
            if k > 0 {
                assert(all.take(k + 1)[k - 1] == all[k - 1]);
            }
        }
        if k == 0 || key != last {
            out.push(item);
            proof {
                if k == 0 {
                    assert(all.take(1) =~= seq![all[0]]);
                }
            }
        }
        last = key;
        k = k + 1;
        assert(rest@ =~= all.subrange(k as int, all.len() as int));
    }
    assert(all.take(all.len() as int) =~= all);
    out
}

/// Collects values recorded by field index, to hand them back in field order.
pub struct IndexRecorder<V> {
    values: Vec<(usize, V)>,
}

impl<V> IndexRecorder<V> {
    /// The values recorded so far, each with its field index, in the order recorded.
    pub closed spec fn recorded(&self) -> Seq<(usize, V)> {
        self.values@
    }

    /// A recorder that holds nothing yet.
    pub fn new() -> (r: IndexRecorder<V>)
        ensures
            r.recorded() == Seq::<(usize, V)>::empty(),
    {
        IndexRecorder { values: Vec::new() }
    }

    /// Records `value` for the field at `index`.
    pub fn record(&mut self, index: usize, value: V)
        ensures
            final(self).recorded() == old(self).recorded().push((index, value)),
    {
        self.values.push((index, value));
    }

    /// The recorded values ordered by field index; values of the same field
    /// stay in the order they were recorded.
    pub fn into_values(self) -> (out: Vec<V>)
        ensures
            exists|sorted: Seq<(usize, V)>|
                is_stable_sort(self.recorded(), sorted) && out@ == values_of(sorted),
    {
        let sorted = sort_by_index(self.values);
        let ghost sv = sorted@;
        let out = strip_keys(sorted);
        assert(is_stable_sort(self.recorded(), sv) && out@ == values_of(sv));
        out
    }
}

/// Collects values recorded by field index together with the field's name,
/// to hand them back as name and value pairs in field order.
pub struct NamedRecorder<V> {
    names: Vec<(usize, String)>,
    values: Vec<(usize, V)>,
}

impl<V> NamedRecorder<V> {
    /// The names recorded so far, each with its field index.
    pub closed spec fn names(&self) -> Seq<(usize, String)> {
        self.names@
    }

    /// The values recorded so far, each with its field index.
    pub closed spec fn values(&self) -> Seq<(usize, V)> {
        self.values@
    }

    /// A recorder that holds nothing yet.
    pub fn new() -> (r: NamedRecorder<V>)
        ensures
            r.names() == Seq::<(usize, String)>::empty(),
            r.values() == Seq::<(usize, V)>::empty(),
    {
        NamedRecorder { names: Vec::new(), values: Vec::new() }
    }

    /// Records `value` for the field called `name` at `index`.
    pub fn record(&mut self, index: usize, name: String, value: V)
        ensures
            final(self).names() == old(self).names().push((index, name)),
            final(self).values() == old(self).values().push((index, value)),
    {
        self.names.push((index, name));
        self.values.push((index, value));
    }

    /// The recorded values paired with their field names, in field order;
    /// where a field was recorded more than once, its first value counts,
    /// and where two fields share a name, the later one counts, so that no
    /// name comes twice.
    pub fn into_values(self) -> (out: Vec<(String, V)>)
        ensures
            exists|sn: Seq<(usize, String)>, sv: Seq<(usize, V)>|
                {
                    &&& is_stable_sort(self.names(), sn)
                    &&& is_stable_sort(self.values(), sv)
                    &&& out@ == last_per_name(zip_named(first_of_runs(sn), first_of_runs(sv)))
                },
            forall|i: int, j: int| 0 <= i < j < out@.len() ==> #[trigger] out@[i].0@ != #[trigger] out@[j].0@,
    {
        let names = sort_by_index(self.names);
        let values = sort_by_index(self.values);
        let ghost sn = names@;
        let ghost sv = values@;
        let mut names = dedup_by_index(names);
        let mut values = dedup_by_index(values);
        let ghost dn = names@;
        let ghost dv = values@;
        let mut out: Vec<(String, V)> = Vec::new();
        while names.len() > 0 && values.len() > 0
            invariant
                names@ == dn.subrange(out@.len() as int, dn.len() as int),
                values@ == dv.subrange(out@.len() as int, dv.len() as int),
                out@.len() <= dn.len(),
                out@.len() <= dv.len(),
                forall|i: int| 0 <= i < out@.len() ==> #[trigger] out@[i] == (dn[i].1, dv[i].1),
            decreases names@.len(),
        {
            let ghost k: int = out@.len() as int;
            let name = names.remove(0);
            let value = values.remove(0);
            out.push((name.1, value.1));
            assert(names@ =~= dn.subrange(k + 1, dn.len() as int));
            assert(values@ =~= dv.subrange(k + 1, dv.len() as int));
        }
        assert(out@ =~= zip_named(dn, dv));
        assert(is_stable_sort(self.names(), sn));
        assert(is_stable_sort(self.values(), sv));
        let kept = keep_last_per_name(out);
        proof {
            lemma_last_per_name(zip_named(dn, dv));
        }
        kept
    }
}

} // verus!
