use vstd::prelude::*;
use vstd::slice::slice_to_vec;
use vstd::relations::{sorted_by, total_ordering};
use vstd::utf8::{encode_utf8, encode_utf8_decode_utf8};
use crate::order::{
    bytes_le, bytes_lt, bytes_eq_exec, bytes_le_exec, keys_le, lemma_bytes_le_antisym,
    lemma_bytes_le_total, lemma_bytes_le_trans, lemma_keys_le_antisym, lemma_keys_le_refl,
    lemma_keys_le_total, lemma_keys_le_trans,
};

verus! {

/// One tensor as the store consumes it: a textual shape descriptor, a dtype
/// identifier, and the raw element bytes.
pub struct TensorValue {
    pub shape: String,
    pub dtype: String,
    pub data: Vec<u8>,
}

/// The mathematical value of one named tensor entry.
pub struct EntryV {
    pub name: Seq<char>,
    pub shape: Seq<char>,
    pub dtype: Seq<char>,
    pub data: Seq<u8>,
}

/// The value of a `(name, tensor)` pair.
pub open spec fn pair_view(p: (String, TensorValue)) -> EntryV {
    EntryV { name: p.0@, shape: p.1.shape@, dtype: p.1.dtype@, data: p.1.data@ }
}

/// The components of an entry in the order in which they are compared and
/// hashed: name bytes, shape bytes, dtype bytes, element bytes.
pub open spec fn entry_key(e: EntryV) -> Seq<Seq<u8>> {
    seq![encode_utf8(e.name), encode_utf8(e.shape), encode_utf8(e.dtype), e.data]
}

/// Total order on entries: lexicographic over the four components.
pub open spec fn entry_le(a: EntryV, b: EntryV) -> bool {
    keys_le(entry_key(a), entry_key(b))
}

/// The order on entries, as a function value for `sort_by`.
pub open spec fn entry_leq_fn() -> spec_fn(EntryV, EntryV) -> bool {
    |a: EntryV, b: EntryV| entry_le(a, b)
}

/// Strict lexicographic order on byte sequences is transitive.
pub proof fn lemma_bytes_lt_trans(x: Seq<u8>, y: Seq<u8>, z: Seq<u8>)
    requires
        bytes_lt(x, y),
        bytes_lt(y, z),
    ensures
        bytes_lt(x, z),
{
    lemma_bytes_le_trans(x, y, z);
    if x == z {
        lemma_bytes_le_antisym(x, y);
    }
}

pub proof fn lemma_entry_le_antisym(a: EntryV, b: EntryV)
    requires
        entry_le(a, b),
        entry_le(b, a),
    ensures
        a == b,
{
    lemma_keys_le_antisym(entry_key(a), entry_key(b));
    assert(encode_utf8(a.name) == entry_key(a)[0]);
    assert(encode_utf8(a.name) == encode_utf8(b.name));
    assert(encode_utf8(a.shape) == encode_utf8(b.shape));
    assert(encode_utf8(a.dtype) == encode_utf8(b.dtype));
    assert(a.data == entry_key(a)[3] && b.data == entry_key(b)[3]);
    encode_utf8_decode_utf8(a.name);
    encode_utf8_decode_utf8(b.name);
    encode_utf8_decode_utf8(a.shape);
    encode_utf8_decode_utf8(b.shape);
    encode_utf8_decode_utf8(a.dtype);
    encode_utf8_decode_utf8(b.dtype);
}

/// `entry_le` is a total ordering, which lets `Seq::sort_by` canonicalize a
/// collection.
pub proof fn lemma_entry_le_total_ordering()
    ensures
        total_ordering(entry_leq_fn()),
{
    let leq = entry_leq_fn();
    assert forall|a: EntryV| #[trigger] leq(a, a) by {
        lemma_keys_le_refl(entry_key(a));
    }
    assert forall|a: EntryV, b: EntryV| #[trigger] leq(a, b) && #[trigger] leq(b, a) implies a
        == b by {
        lemma_entry_le_antisym(a, b);
    }
    assert forall|a: EntryV, b: EntryV| #[trigger] leq(a, b) || #[trigger] leq(b, a) by {
        lemma_keys_le_total(entry_key(a), entry_key(b));
    }
    assert forall|a: EntryV, b: EntryV, c: EntryV| #[trigger] leq(a, b) && #[trigger] leq(
        b,
        c,
    ) implies leq(a, c) by {
        lemma_keys_le_trans(entry_key(a), entry_key(b), entry_key(c));
    }
}

/// Two sequences sorted by `entry_le` with the same multiset of entries are
/// the same sequence: the sorted form of a collection is canonical.
pub proof fn lemma_sorted_unique(a: Seq<EntryV>, b: Seq<EntryV>)
    requires
        sorted_by(a, entry_leq_fn()),
        sorted_by(b, entry_leq_fn()),
        a.to_multiset() == b.to_multiset(),
    ensures
        a == b,
    decreases a.len(),
{
    broadcast use vstd::seq_lib::group_to_multiset_ensures;

    a.to_multiset_ensures();
    b.to_multiset_ensures();
    if a.len() == 0 {
        assert(b.to_multiset().len() == 0);
        assert(a =~= b);
    } else {
        assert(b.len() == a.len());
        assert(a.to_multiset().count(a[0]) > 0);
        assert(b.to_multiset().count(b[0]) > 0);
        assert(b.contains(a[0]));
        assert(a.contains(b[0]));
        let ia = choose|i: int| 0 <= i < b.len() && b[i] == a[0];
        let ib = choose|i: int| 0 <= i < a.len() && a[i] == b[0];
        lemma_keys_le_refl(entry_key(a[0]));
        lemma_keys_le_refl(entry_key(b[0]));
        assert(entry_leq_fn()(a[0], a[ib]) || ib == 0);
        assert(entry_leq_fn()(b[0], b[ia]) || ia == 0);
        lemma_entry_le_antisym(a[0], b[0]);
        assert(a.remove(0) =~= a.drop_first());
        assert(b.remove(0) =~= b.drop_first());
        assert(a.drop_first().to_multiset() =~= a.to_multiset().remove(a[0]));
        assert(b.drop_first().to_multiset() =~= b.to_multiset().remove(b[0]));
        assert forall|i: int, j: int| 0 <= i < j < a.drop_first().len() implies entry_leq_fn()(
            a.drop_first()[i],
            a.drop_first()[j],
        ) by {
            assert(a.drop_first()[i] == a[i + 1]);
            assert(a.drop_first()[j] == a[j + 1]);
        }
        assert forall|i: int, j: int| 0 <= i < j < b.drop_first().len() implies entry_leq_fn()(
            b.drop_first()[i],
            b.drop_first()[j],
        ) by {
            assert(b.drop_first()[i] == b[i + 1]);
            assert(b.drop_first()[j] == b[j + 1]);
        }
        lemma_sorted_unique(a.drop_first(), b.drop_first());
        assert forall|i: int| 0 <= i < a.len() implies a[i] == b[i] by {
            if i > 0 {
                assert(a[i] == a.drop_first()[i - 1]);
                assert(b[i] == b.drop_first()[i - 1]);
            }
        }
        assert(a =~= b);
    }
}

/// A well-formed collection is sorted in the entry order: names differ
/// strictly, so the first component of the keys decides.
pub proof fn lemma_wf_sorted(c: TensorCollection)
    requires
        c.wf(),
    ensures
        sorted_by(c.entry_seq(), entry_leq_fn()),
{
    let s = c.entry_seq();
    assert forall|i: int, j: int| 0 <= i < j < s.len() implies entry_leq_fn()(s[i], s[j]) by {
        assert(bytes_lt(encode_utf8(s[i].name), encode_utf8(s[j].name)));
        assert(entry_key(s[i])[0] == encode_utf8(s[i].name));
        assert(entry_key(s[j])[0] == encode_utf8(s[j].name));
        assert(keys_le(entry_key(s[i]), entry_key(s[j])));
    }
}

/// Finds the entry named `name`, scanning from the front.
pub open spec fn find_entry(s: Seq<EntryV>, name: Seq<char>) -> Option<EntryV>
    decreases s.len(),
{
    if s.len() == 0 {
        None
    } else if s[0].name == name {
        Some(s[0])
    } else {
        find_entry(s.drop_first(), name)
    }
}

pub proof fn lemma_find_some(s: Seq<EntryV>, name: Seq<char>, j: int)
    requires
        0 <= j < s.len(),
        s[j].name == name,
        forall|i: int| 0 <= i < j ==> s[i].name != name,
    ensures
        find_entry(s, name) == Some(s[j]),
    decreases s.len(),
{
    if j > 0 {
        assert(s.drop_first()[j - 1] == s[j]);
        assert forall|i: int| 0 <= i < j - 1 implies s.drop_first()[i].name != name by {
            assert(s.drop_first()[i] == s[i + 1]);
        }
        lemma_find_some(s.drop_first(), name, j - 1);
    }
}

pub proof fn lemma_find_none(s: Seq<EntryV>, name: Seq<char>)
    requires
        forall|i: int| 0 <= i < s.len() ==> s[i].name != name,
    ensures
        find_entry(s, name) is None,
    decreases s.len(),
{
    if s.len() > 0 {
        assert forall|i: int| 0 <= i < s.drop_first().len() implies s.drop_first()[i].name
            != name by {
            assert(s.drop_first()[i] == s[i + 1]);
        }
        lemma_find_none(s.drop_first(), name);
    }
}

/// If `find_entry` misses, no index holds the name.
pub proof fn lemma_find_present(s: Seq<EntryV>, name: Seq<char>)
    requires
        find_entry(s, name) is None,
    ensures
        forall|i: int| 0 <= i < s.len() ==> s[i].name != name,
    decreases s.len(),
{
    if s.len() > 0 {
        lemma_find_present(s.drop_first(), name);
        assert forall|i: int| 0 <= i < s.len() implies s[i].name != name by {
            if i > 0 {
                assert(s[i] == s.drop_first()[i - 1]);
            }
        }
    }
}

/// Copies a byte vector.
pub fn clone_bytes(v: &Vec<u8>) -> (r: Vec<u8>)
    ensures
        r@ == v@,
{
    slice_to_vec(v.as_slice())
}

impl Clone for TensorValue {
    /// The copy has the same shape text, dtype text and bytes.
    fn clone(&self) -> (r: Self)
        ensures
            r.shape@ == self.shape@,
            r.dtype@ == self.dtype@,
            r.data@ == self.data@,
    {
        TensorValue {
            shape: self.shape.clone(),
            dtype: self.dtype.clone(),
            data: clone_bytes(&self.data),
        }
    }
}

/// An ordered-by-name mapping from tensor name to tensor value, kept sorted
/// by the byte encoding of the names, with no name occurring twice.
pub struct TensorCollection {
    entries: Vec<(String, TensorValue)>,
}

impl TensorCollection {
    /// The entries of the collection, in storage order.
    pub closed spec fn entry_seq(self) -> Seq<EntryV> {
        self.entries@.map(|i: int, p: (String, TensorValue)| pair_view(p))
    }

    /// The names are strictly increasing in the byte order, so each name is
    /// unique and the sequence is canonical.
    pub closed spec fn wf(self) -> bool {
        forall|i: int, j: int|
            0 <= i < j < self.entry_seq().len() ==> bytes_lt(
                encode_utf8(self.entry_seq()[i].name),
                encode_utf8(self.entry_seq()[j].name),
            )
    }

    /// The entry under `name`, if any.
    pub open spec fn lookup(self, name: Seq<char>) -> Option<EntryV> {
        find_entry(self.entry_seq(), name)
    }

    pub fn new() -> (r: Self)
        ensures
            r.wf(),
            r.entry_seq() == Seq::<EntryV>::empty(),
    {
        let r = TensorCollection { entries: Vec::new() };
        proof {
            assert(r.entry_seq() =~= Seq::<EntryV>::empty());
        }
        r
    }

    /// The entry at position `i` in the canonical order.
    pub fn entry_at(&self, i: usize) -> (r: &(String, TensorValue))
        requires
            i < self.entry_seq().len(),
        ensures
            pair_view(*r) == self.entry_seq()[i as int],
    {
        &self.entries[i]
    }

    pub fn len(&self) -> (r: usize)
        ensures
            r == self.entry_seq().len(),
    {
        self.entries.len()
    }

    /// The tensor stored under `name`, if any.
    pub fn get(&self, name: &String) -> (r: Option<&TensorValue>)
        ensures
            match r {
                Some(v) => self.lookup(name@) == Some(
                    (EntryV { name: name@, shape: v.shape@, dtype: v.dtype@, data: v.data@ }),
                ),
                None => self.lookup(name@) is None,
            },
    {
        let n = self.entries.len();
        let mut i: usize = 0;
        while i < n
            invariant
                n == self.entries@.len(),
                i <= n,
                forall|j: int| 0 <= j < i ==> self.entry_seq()[j].name != name@,
            decreases n - i,
        {
            if bytes_eq_exec(self.entries[i].0.as_str().as_bytes(), name.as_str().as_bytes()) {
                proof {
                    assert(encode_utf8(self.entries@[i as int].0@) == encode_utf8(name@));
                    encode_utf8_decode_utf8(self.entries@[i as int].0@);
                    encode_utf8_decode_utf8(name@);
                    assert(self.entry_seq()[i as int].name == name@);
                    lemma_find_some(self.entry_seq(), name@, i as int);
                }
                return Some(&self.entries[i].1);
            }
            proof {
                assert(self.entries@[i as int].0@ != name@);
                assert(self.entry_seq()[i as int].name != name@);
            }
            i = i + 1;
        }
        proof {
            lemma_find_none(self.entry_seq(), name@);
        }
        None
    }

    /// Adds a tensor under a name not yet present, keeping the name order.
    pub fn insert(&mut self, name: String, value: TensorValue)
        requires
            old(self).wf(),
            old(self).lookup(name@) is None,
        ensures
            final(self).wf(),
            final(self).lookup(name@) == Some(
                (EntryV {
                    name: name@,
                    shape: value.shape@,
                    dtype: value.dtype@,
                    data: value.data@,
                }),
            ),
            forall|k: Seq<char>| k != name@ ==> final(self).lookup(k) == old(self).lookup(k),
            final(self).entry_seq().to_multiset() == old(self).entry_seq().to_multiset().insert(
                (EntryV {
                    name: name@,
                    shape: value.shape@,
                    dtype: value.dtype@,
                    data: value.data@,
                }),
            ),
    {
        proof {
            lemma_find_present(old(self).entry_seq(), name@);
        }
        let ghost olds = old(self).entry_seq();
        let ghost ev = EntryV {
            name: name@,
            shape: value.shape@,
            dtype: value.dtype@,
            data: value.data@,
        };
        let n = self.entries.len();
        let mut i: usize = 0;
        loop
            invariant
                self == old(self),
                n == self.entries@.len(),
                i <= n,
                forall|j: int| 0 <= j < i ==> bytes_lt(
                    encode_utf8(self.entry_seq()[j].name),
                    encode_utf8(name@),
                ),
            ensures
                self == old(self),
                i <= n,
                forall|j: int| 0 <= j < i ==> bytes_lt(
                    encode_utf8(self.entry_seq()[j].name),
                    encode_utf8(name@),
                ),
                i < n ==> !bytes_lt(
                    encode_utf8(self.entry_seq()[i as int].name),
                    encode_utf8(name@),
                ),
            decreases n - i,
        {
            if i >= n {
                break ;
            }
            let cur_le = bytes_le_exec(self.entries[i].0.as_str().as_bytes(), name.as_str().as_bytes());
            let cur_eq = bytes_eq_exec(self.entries[i].0.as_str().as_bytes(), name.as_str().as_bytes());
            if !cur_le || cur_eq {
                break ;
            }
            i = i + 1;
        }
        proof {
            if i < n {
                let nb = encode_utf8(olds[i as int].name);
                let newb = encode_utf8(name@);
                if nb == newb {
                    encode_utf8_decode_utf8(olds[i as int].name);
                    encode_utf8_decode_utf8(name@);
                    assert(olds[i as int].name == name@);
                    assert(forall|j: int| 0 <= j < i ==> olds[j].name != name@);
                    lemma_find_some(olds, name@, i as int);
                    assert(false);
                } else {
                    lemma_bytes_le_total(nb, newb);
                    assert(bytes_lt(newb, nb));
                }
            }
        }
        let ghost pos = i as int;
        self.entries.insert(i, (name, value));
        proof {
            let ns = self.entry_seq();
            olds.insert_ensures(pos, ev);
            old(self).entries@.insert_ensures(pos, (name, value));
            assert(ns =~= olds.insert(pos, ev)) by {
                assert forall|j: int| 0 <= j < ns.len() implies ns[j] == olds.insert(
                    pos,
                    ev,
                )[j] by {
                    if j < pos {
                        assert(self.entries@[j] == old(self).entries@[j]);
                        assert(olds.insert(pos, ev)[j] == olds[j]);
                    } else if j == pos {
                        assert(self.entries@[j] == (name, value));
                    } else {
                        assert(self.entries@[j] == old(self).entries@[j - 1]);
                        assert(olds.insert(pos, ev)[j] == olds[j - 1]);
                    }
                }
            }
            lemma_insert_wf(olds, pos, ev);
            lemma_insert_multiset(olds, pos, ev);
            assert forall|j: int| 0 <= j < pos implies ns[j].name != name@ by {
                encode_utf8_decode_utf8(olds[j].name);
                encode_utf8_decode_utf8(name@);
                assert(bytes_lt(encode_utf8(olds[j].name), encode_utf8(name@)));
                assert(encode_utf8(olds[j].name) != encode_utf8(name@));
            }
            lemma_find_some(ns, name@, pos);
            assert forall|k: Seq<char>| k != name@ implies find_entry(ns, k) == find_entry(
                olds,
                k,
            ) by {
                lemma_find_skip_insert(olds, pos, ev, k);
            }
        }
    }
}

#[verifier::rlimit(50)]
proof fn lemma_insert_wf(s: Seq<EntryV>, pos: int, e: EntryV)
    requires
        0 <= pos <= s.len(),
        forall|i: int, j: int| 0 <= i < j < s.len() ==> bytes_lt(
            encode_utf8(s[i].name),
            encode_utf8(s[j].name),
        ),
        forall|j: int| 0 <= j < pos ==> bytes_lt(encode_utf8(s[j].name), encode_utf8(e.name)),
        pos < s.len() ==> bytes_lt(encode_utf8(e.name), encode_utf8(s[pos].name)),
    ensures
        forall|i: int, j: int| 0 <= i < j < s.insert(pos, e).len() ==> bytes_lt(
            encode_utf8(s.insert(pos, e)[i].name),
            encode_utf8(s.insert(pos, e)[j].name),
        ),
{
    let ns = s.insert(pos, e);
    s.insert_ensures(pos, e);
    assert forall|i: int, j: int| 0 <= i < j < ns.len() implies bytes_lt(
        encode_utf8(ns[i].name),
        encode_utf8(ns[j].name),
    ) by {
        if j < pos {
        } else if i < pos && j == pos {
        } else if i < pos && j > pos {
            assert(ns[i] == s[i]);
            assert(ns[j] == s[j - 1]);
            assert(i < j - 1);
        } else if i == pos && j > pos {
            assert(ns[j] == s[j - 1]);
            if j - 1 > pos {
                lemma_bytes_lt_trans(
                    encode_utf8(e.name),
                    encode_utf8(s[pos].name),
                    encode_utf8(s[j - 1].name),
                );
            }
        } else {
            assert(ns[i] == s[i - 1]);
            assert(ns[j] == s[j - 1]);
        }
    }
}

proof fn lemma_insert_multiset(s: Seq<EntryV>, pos: int, e: EntryV)
    requires
        0 <= pos <= s.len(),
    ensures
        s.insert(pos, e).to_multiset() == s.to_multiset().insert(e),
{
    broadcast use vstd::seq_lib::group_to_multiset_ensures;

    let ns = s.insert(pos, e);
    s.insert_ensures(pos, e);
    assert(ns[pos] == e);
    assert(ns.remove(pos) =~= s);
    assert(ns.remove(pos).to_multiset() =~= ns.to_multiset().remove(ns[pos]));
    assert(ns.to_multiset().count(e) > 0) by {
        assert(ns.contains(e));
    }
    assert(ns.to_multiset() =~= s.to_multiset().insert(e));
}

impl Clone for TensorCollection {
    /// The copy holds the same entries in the same order.
    fn clone(&self) -> (r: Self)
        ensures
            r.entry_seq() == self.entry_seq(),
            self.wf() ==> r.wf(),
    {
        let mut out: Vec<(String, TensorValue)> = Vec::new();
        let n = self.entries.len();
        let mut i: usize = 0;
        proof {
            assert(out@.map(|x: int, p: (String, TensorValue)| pair_view(p)) =~= self.entry_seq().take(0));
        }
        while i < n
            invariant
                n == self.entries@.len(),
                i <= n,
                out@.len() == i,
                out@.map(|x: int, p: (String, TensorValue)| pair_view(p)) == self.entry_seq().take(i as int),
            decreases n - i,
        {
            let ghost before = out@.map(|x: int, p: (String, TensorValue)| pair_view(p));
            let name = self.entries[i].0.clone();
            let value = self.entries[i].1.clone();
            out.push((name, value));
            proof {
                let f = |x: int, p: (String, TensorValue)| pair_view(p);
                assert(out@.map(f) =~= before.push(pair_view(self.entries@[i as int]))) by {
                    assert forall|j: int| 0 <= j < out@.len() implies out@.map(f)[j] == before.push(
                        pair_view(self.entries@[i as int]),
                    )[j] by {
                        if j < i {
                            assert(out@[j] == out@.drop_last()[j]);
                        }
                    }
                }
                assert(self.entry_seq().take(i + 1) =~= self.entry_seq().take(i as int).push(
                    self.entry_seq()[i as int],
                ));
            }
            i = i + 1;
        }
        proof {
            assert(self.entry_seq().take(n as int) =~= self.entry_seq());
        }
        let r = TensorCollection { entries: out };
        proof {
            assert(r.entry_seq() == self.entry_seq());
        }
        r
    }
}

proof fn lemma_find_skip_insert(s: Seq<EntryV>, pos: int, e: EntryV, k: Seq<char>)
    requires
        0 <= pos <= s.len(),
        k != e.name,
    ensures
        find_entry(s.insert(pos, e), k) == find_entry(s, k),
    decreases s.len(),
{
    let ns = s.insert(pos, e);
    s.insert_ensures(pos, e);
    if pos == 0 {
        assert(ns[0] == e);
        assert(ns.drop_first() =~= s);
    } else {
        assert(ns[0] == s[0]);
        if s[0].name == k {
        } else {
            assert(ns.drop_first() =~= s.drop_first().insert(pos - 1, e)) by {
                s.drop_first().insert_ensures(pos - 1, e);
            }
            lemma_find_skip_insert(s.drop_first(), pos - 1, e, k);
        }
    }
}

} // verus!
