use vstd::prelude::*;
use crate::digest::{hex_chars_of, hex_digit};

verus! {

/// The whitespace characters that a reference file may carry around its
/// digest text.
pub open spec fn is_ws(c: char) -> bool {
    c == ' ' || c == '\t' || c == '\n' || c == '\r'
}

fn is_ws_exec(c: char) -> (r: bool)
    ensures
        r == is_ws(c),
{
    c == ' ' || c == '\t' || c == '\n' || c == '\r'
}

/// Text with its leading whitespace removed.
pub open spec fn trim_front(s: Seq<char>) -> Seq<char>
    decreases s.len(),
{
    if s.len() > 0 && is_ws(s[0]) {
        trim_front(s.drop_first())
    } else {
        s
    }
}

/// Text with its trailing whitespace removed.
pub open spec fn trim_back(s: Seq<char>) -> Seq<char>
    decreases s.len(),
{
    if s.len() > 0 && is_ws(s.last()) {
        trim_back(s.drop_last())
    } else {
        s
    }
}

/// Text with whitespace removed from both ends.
pub open spec fn trim_chars(s: Seq<char>) -> Seq<char> {
    trim_back(trim_front(s))
}

proof fn lemma_trim_front_is_skip(s: Seq<char>, i: int)
    requires
        0 <= i <= s.len(),
        forall|j: int| 0 <= j < i ==> is_ws(s[j]),
        i < s.len() ==> !is_ws(s[i]),
    ensures
        trim_front(s) == s.skip(i),
    decreases i,
{
    if i == 0 {
        assert(s.skip(0) =~= s);
    } else {
        assert(is_ws(s[0]));
        assert forall|j: int| 0 <= j < i - 1 implies is_ws(s.drop_first()[j]) by {
            assert(s.drop_first()[j] == s[j + 1]);
        }
        assert(i - 1 < s.drop_first().len() ==> !is_ws(s.drop_first()[i - 1]));
        lemma_trim_front_is_skip(s.drop_first(), i - 1);
        assert(s.drop_first().skip(i - 1) =~= s.skip(i));
    }
}

proof fn lemma_trim_back_is_take(s: Seq<char>, j: int)
    requires
        0 <= j <= s.len(),
        forall|k: int| j <= k < s.len() ==> is_ws(s[k]),
        j > 0 ==> !is_ws(s[j - 1]),
    ensures
        trim_back(s) == s.take(j),
    decreases s.len() - j,
{
    if j == s.len() {
        assert(s.take(j) =~= s);
        if s.len() > 0 {
            assert(!is_ws(s.last()) || s.last() == s[j - 1]);
        }
    } else {
        assert(is_ws(s.last()));
        assert forall|k: int| j <= k < s.drop_last().len() implies is_ws(s.drop_last()[k]) by {
            assert(s.drop_last()[k] == s[k]);
        }
        lemma_trim_back_is_take(s.drop_last(), j);
        assert(s.drop_last().take(j) =~= s.take(j));
    }
}

/// Trimming leaves text without whitespace at its ends unchanged.
pub proof fn lemma_trim_id(s: Seq<char>)
    requires
        s.len() > 0 ==> !is_ws(s[0]) && !is_ws(s.last()),
    ensures
        trim_chars(s) == s,
{
    if s.len() == 0 {
        assert(trim_front(s) == s);
        assert(trim_back(s) == s);
    } else {
        assert(trim_front(s) == s);
        assert(trim_back(s) == s);
    }
}

/// Hexadecimal text holds no whitespace.
pub proof fn lemma_hex_not_ws(b: Seq<u8>)
    ensures
        forall|i: int| 0 <= i < hex_chars_of(b).len() ==> !is_ws(#[trigger] hex_chars_of(b)[i]),
    decreases b.len(),
{
    if b.len() > 0 {
        lemma_hex_not_ws(b.drop_last());
        let h = hex_chars_of(b);
        let hp = hex_chars_of(b.drop_last());
        assert forall|i: int| 0 <= i < h.len() implies !is_ws(h[i]) by {
            if i < hp.len() {
                assert(h[i] == hp[i]);
            } else {
                assert(!is_ws(hex_digit(b.last() / 16)));
                assert(!is_ws(hex_digit(b.last() % 16)));
            }
        }
    }
}

/// Removes leading and trailing whitespace.
pub fn trim_exec(s: &str) -> (r: String)
    ensures
        r@ == trim_chars(s@),
{
    let n = s.unicode_len();
    let mut start: usize = 0;
    loop
        invariant
            n == s@.len(),
            start <= n,
            forall|j: int| 0 <= j < start ==> is_ws(s@[j]),
        ensures
            start <= n,
            forall|j: int| 0 <= j < start ==> is_ws(s@[j]),
            start < n ==> !is_ws(s@[start as int]),
        decreases n - start,
    {
        if start >= n {
            break ;
        }
        if !is_ws_exec(s.get_char(start)) {
            break ;
        }
        start = start + 1;
    }
    let mut end: usize = n;
    loop
        invariant
            n == s@.len(),
            start <= end <= n,
            forall|k: int| end <= k < n ==> is_ws(s@[k]),
            start < n ==> !is_ws(s@[start as int]),
        ensures
            start <= end <= n,
            forall|k: int| end <= k < n ==> is_ws(s@[k]),
            end > start ==> !is_ws(s@[end - 1]),
        decreases end,
    {
        if end <= start {
            break ;
        }
        if !is_ws_exec(s.get_char(end - 1)) {
            break ;
        }
        end = end - 1;
    }
    let piece = s.substring_char(start, end);
    proof {
        lemma_trim_front_is_skip(s@, start as int);
        let t = s@.skip(start as int);
        assert forall|k: int| end - start <= k < t.len() implies is_ws(t[k]) by {
            assert(t[k] == s@[k + start]);
        }
        if end > start {
            assert(t[end - start - 1] == s@[end - 1]);
        }
        lemma_trim_back_is_take(t, end - start);
        assert(t.take(end - start) =~= s@.subrange(start as int, end as int));
    }
    piece.to_owned()
}

} // verus!
