//! Finding the first byte of a sequence that a predicate picks out: the
//! search both codecs make before they cut a frame off their buffer.
use vstd::prelude::*;

verus! {

/// The control-C byte that gdb sends to stop the target.
pub const INTERRUPT: u8 = 0x03;

/// `d` holds no control-C.
pub open spec fn interrupt_free(d: Seq<u8>) -> bool {
    forall|j: int| 0 <= j < d.len() ==> #[trigger] d[j] != INTERRUPT
}

/// `i` is the position of the first byte of `s` that `p` picks out.
pub open spec fn is_first_where(s: Seq<u8>, p: spec_fn(u8) -> bool, i: int) -> bool {
    &&& 0 <= i < s.len()
    &&& p(s[i])
    &&& forall|j: int| 0 <= j < i ==> !p(#[trigger] s[j])
}

/// `p` picks out no byte of `s`.
pub open spec fn none_where(s: Seq<u8>, p: spec_fn(u8) -> bool) -> bool {
    forall|j: int| 0 <= j < s.len() ==> !p(#[trigger] s[j])
}

/// The position of the first byte of `s` that `p` picks out, if any.
pub open spec fn first_where(s: Seq<u8>, p: spec_fn(u8) -> bool) -> Option<int>
    decreases s.len(),
{
    if s.len() == 0 {
        None
    } else if p(s[0]) {
        Some(0)
    } else {
        match first_where(s.drop_first(), p) {
            Some(k) => Some(k + 1),
            None => None,
        }
    }
}

/// `first_where` finds the first match, or there is none.
pub proof fn lemma_first_where(s: Seq<u8>, p: spec_fn(u8) -> bool)
    ensures
        match first_where(s, p) {
            Some(k) => is_first_where(s, p, k),
            None => none_where(s, p),
        },
    decreases s.len(),
{
    if s.len() > 0 && !p(s[0]) {
        let t = s.drop_first();
        lemma_first_where(t, p);
        match first_where(t, p) {
            Some(k) => {
                assert forall|j: int| 0 <= j < k + 1 implies !p(#[trigger] s[j]) by {
                    if j > 0 {
                        assert(s[j] == t[j - 1]);
                    }
                }
            },
            None => {
                assert forall|j: int| 0 <= j < s.len() implies !p(#[trigger] s[j]) by {
                    if j > 0 {
                        assert(s[j] == t[j - 1]);
                    }
                }
            },
        }
    }
}

/// The first match is unique: a position that is first is the one that
/// `first_where` names.
pub proof fn lemma_first_where_at(s: Seq<u8>, p: spec_fn(u8) -> bool, i: int)
    requires
        is_first_where(s, p, i),
    ensures
        first_where(s, p) == Some(i),
{
    lemma_first_where(s, p);
    match first_where(s, p) {
        Some(k) => {
            if k < i {
                assert(!p(s[k]));
            } else if i < k {
                assert(!p(s[i]));
            }
        },
        None => {
            assert(!p(s[i]));
        },
    }
}

/// Where `p` picks out nothing, `first_where` finds nothing.
pub proof fn lemma_first_where_none(s: Seq<u8>, p: spec_fn(u8) -> bool)
    requires
        none_where(s, p),
    ensures
        first_where(s, p) is None,
{
    lemma_first_where(s, p);
    if let Some(k) = first_where(s, p) {
        assert(!p(s[k]));
    }
}

} // verus!
