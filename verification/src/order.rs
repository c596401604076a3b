use vstd::prelude::*;

verus! {

/// Lexicographic "less than or equal" on byte sequences: the order in which
/// tensor names are fed to the content hasher.
pub open spec fn bytes_le(x: Seq<u8>, y: Seq<u8>) -> bool
    decreases x.len(),
{
    if x.len() == 0 {
        true
    } else if y.len() == 0 {
        false
    } else if x[0] < y[0] {
        true
    } else if x[0] > y[0] {
        false
    } else {
        bytes_le(x.drop_first(), y.drop_first())
    }
}

/// Strict form of the lexicographic order.
pub open spec fn bytes_lt(x: Seq<u8>, y: Seq<u8>) -> bool {
    bytes_le(x, y) && x != y
}

pub proof fn lemma_bytes_le_total(x: Seq<u8>, y: Seq<u8>)
    ensures
        bytes_le(x, y) || bytes_le(y, x),
    decreases x.len(),
{
    if x.len() > 0 && y.len() > 0 && x[0] == y[0] {
        lemma_bytes_le_total(x.drop_first(), y.drop_first());
    }
}

pub proof fn lemma_bytes_le_antisym(x: Seq<u8>, y: Seq<u8>)
    requires
        bytes_le(x, y),
        bytes_le(y, x),
    ensures
        x == y,
    decreases x.len(),
{
    if x.len() == 0 {
        assert(y.len() == 0);
        assert(x =~= y);
    } else {
        assert(y.len() > 0);
        assert(x[0] == y[0]);
        lemma_bytes_le_antisym(x.drop_first(), y.drop_first());
        assert(x.len() == y.len());
        assert forall|i: int| 0 <= i < x.len() implies x[i] == y[i] by {
            if i > 0 {
                assert(x[i] == x.drop_first()[i - 1]);
                assert(y[i] == y.drop_first()[i - 1]);
            }
        }
        assert(x =~= y);
    }
}

pub proof fn lemma_bytes_le_trans(x: Seq<u8>, y: Seq<u8>, z: Seq<u8>)
    requires
        bytes_le(x, y),
        bytes_le(y, z),
    ensures
        bytes_le(x, z),
    decreases x.len(),
{
    if x.len() > 0 {
        assert(y.len() > 0);
        assert(z.len() > 0);
        if x[0] == z[0] {
            assert(x[0] == y[0] && y[0] == z[0]);
            lemma_bytes_le_trans(x.drop_first(), y.drop_first(), z.drop_first());
        }
    }
}

/// Lexicographic order on equal-length lists of byte sequences, comparing
/// component by component with `bytes_le`.
pub open spec fn keys_le(x: Seq<Seq<u8>>, y: Seq<Seq<u8>>) -> bool
    decreases x.len(),
{
    if x.len() == 0 {
        true
    } else if x[0] != y[0] {
        bytes_le(x[0], y[0])
    } else {
        keys_le(x.drop_first(), y.drop_first())
    }
}

pub proof fn lemma_keys_le_refl(x: Seq<Seq<u8>>)
    ensures
        keys_le(x, x),
    decreases x.len(),
{
    if x.len() > 0 {
        lemma_keys_le_refl(x.drop_first());
    }
}

pub proof fn lemma_keys_le_total(x: Seq<Seq<u8>>, y: Seq<Seq<u8>>)
    requires
        x.len() == y.len(),
    ensures
        keys_le(x, y) || keys_le(y, x),
    decreases x.len(),
{
    if x.len() > 0 {
        if x[0] != y[0] {
            lemma_bytes_le_total(x[0], y[0]);
        } else {
            lemma_keys_le_total(x.drop_first(), y.drop_first());
        }
    }
}

pub proof fn lemma_keys_le_antisym(x: Seq<Seq<u8>>, y: Seq<Seq<u8>>)
    requires
        x.len() == y.len(),
        keys_le(x, y),
        keys_le(y, x),
    ensures
        x == y,
    decreases x.len(),
{
    if x.len() == 0 {
        assert(x =~= y);
    } else {
        if x[0] != y[0] {
            lemma_bytes_le_antisym(x[0], y[0]);
        }
        assert(x[0] == y[0]);
        lemma_keys_le_antisym(x.drop_first(), y.drop_first());
        assert forall|i: int| 0 <= i < x.len() implies x[i] == y[i] by {
            if i > 0 {
                assert(x[i] == x.drop_first()[i - 1]);
                assert(y[i] == y.drop_first()[i - 1]);
            }
        }
        assert(x =~= y);
    }
}

pub proof fn lemma_keys_le_trans(x: Seq<Seq<u8>>, y: Seq<Seq<u8>>, z: Seq<Seq<u8>>)
    requires
        x.len() == y.len(),
        y.len() == z.len(),
        keys_le(x, y),
        keys_le(y, z),
    ensures
        keys_le(x, z),
    decreases x.len(),
{
    if x.len() > 0 {
        if x[0] != y[0] {
            if y[0] != z[0] {
                lemma_bytes_le_trans(x[0], y[0], z[0]);
                if x[0] == z[0] {
                    lemma_bytes_le_antisym(x[0], y[0]);
                }
            } else {
                assert(x[0] != z[0]);
            }
        } else {
            if y[0] != z[0] {
                assert(x[0] != z[0]);
            } else {
                lemma_keys_le_trans(x.drop_first(), y.drop_first(), z.drop_first());
            }
        }
    }
}

/// Compares two byte slices in the lexicographic order.
pub fn bytes_le_exec(x: &[u8], y: &[u8]) -> (r: bool)
    ensures
        r == bytes_le(x@, y@),
{
    let xl = x.len();
    let yl = y.len();
    proof {
        assert(x@.skip(0) =~= x@);
        assert(y@.skip(0) =~= y@);
    }
    let mut i: usize = 0;
    while i < xl && i < yl
        invariant
            xl == x@.len(),
            yl == y@.len(),
            i <= xl,
            i <= yl,
            bytes_le(x@, y@) == bytes_le(x@.skip(i as int), y@.skip(i as int)),
        decreases xl - i,
    {
        let xb = x[i];
        let yb = y[i];
        proof {
            assert(x@.skip(i as int)[0] == x@[i as int]);
            assert(y@.skip(i as int)[0] == y@[i as int]);
        }
        if xb < yb {
            return true;
        }
        if xb > yb {
            return false;
        }
        proof {
            assert(x@.skip(i as int).drop_first() =~= x@.skip(i + 1));
            assert(y@.skip(i as int).drop_first() =~= y@.skip(i + 1));
        }
        i = i + 1;
    }
    proof {
        if i == xl {
            assert(x@.skip(i as int).len() == 0);
        } else {
            assert(y@.skip(i as int).len() == 0);
            assert(x@.skip(i as int).len() > 0);
        }
    }
    xl <= yl
}

/// Decides whether two byte slices hold the same bytes.
pub fn bytes_eq_exec(x: &[u8], y: &[u8]) -> (r: bool)
    ensures
        r == (x@ == y@),
{
    let xl = x.len();
    let yl = y.len();
    if xl != yl {
        proof {
            assert(x@ != y@);
        }
        return false;
    }
    let mut i: usize = 0;
    while i < xl
        invariant
            xl == x@.len(),
            xl == y@.len(),
            i <= xl,
            forall|j: int| 0 <= j < i ==> x@[j] == y@[j],
        decreases xl - i,
    {
        if x[i] != y[i] {
            proof {
                assert(x@[i as int] != y@[i as int]);
            }
            return false;
        }
        i = i + 1;
    }
    proof {
        assert(x@ =~= y@);
    }
    true
}

/// Appends the bytes of `b` to `acc`.
pub fn push_bytes(acc: &mut Vec<u8>, b: &[u8])
    ensures
        final(acc)@ == old(acc)@ + b@,
{
    let bl = b.len();
    let mut i: usize = 0;
    while i < bl
        invariant
            bl == b@.len(),
            i <= bl,
            acc@ == old(acc)@ + b@.take(i as int),
        decreases bl - i,
    {
        acc.push(b[i]);
        proof {
            assert(old(acc)@ + b@.take(i as int) + seq![b@[i as int]] =~= old(acc)@ + b@.take(
                i + 1,
            ));
        }
        i = i + 1;
    }
    proof {
        assert(old(acc)@ + b@.take(bl as int) =~= old(acc)@ + b@);
    }
}

} // verus!
