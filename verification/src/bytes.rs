//! Searching byte strings.

use vstd::prelude::*;

verus! {

/// `needle` stands in `hay` at `at`.
pub open spec fn occurs_at(hay: Seq<u8>, needle: Seq<u8>, at: int) -> bool {
    &&& 0 <= at
    &&& at + needle.len() <= hay.len()
    &&& hay.subrange(at, at + needle.len()) == needle
}

/// `needle` stands somewhere in `hay`.
pub open spec fn occurs(hay: Seq<u8>, needle: Seq<u8>) -> bool {
    exists|i: int| occurs_at(hay, needle, i)
}

/// `at` is the last place where `needle` stands in `hay`.
pub open spec fn occurs_last_at(hay: Seq<u8>, needle: Seq<u8>, at: int) -> bool {
    occurs_at(hay, needle, at) && forall|i: int| at < i ==> !occurs_at(hay, needle, i)
}

/// `memchr::memmem::find` gives the first place where the needle stands, and
/// `None` where it stands nowhere.
pub assume_specification[ memchr::memmem::find ](haystack: &[u8], needle: &[u8]) -> (r: Option<
    usize,
>)
    ensures
        match r {
            Some(i) => occurs_at(haystack@, needle@, i as int) && forall|j: int|
                0 <= j < i ==> !occurs_at(haystack@, needle@, j),
            None => !occurs(haystack@, needle@),
        },
;

/// `memchr::memchr` gives the first place where the byte stands, and `None`
/// where it stands nowhere.
pub assume_specification[ memchr::memchr ](needle: u8, haystack: &[u8]) -> (r: Option<usize>)
    ensures
        match r {
            Some(i) => i < haystack@.len() && haystack@[i as int] == needle && forall|j: int|
                0 <= j < i ==> haystack@[j] != needle,
            None => forall|j: int| 0 <= j < haystack@.len() ==> haystack@[j] != needle,
        },
;

/// Occurrences in a later part of a byte string are occurrences in the whole.
pub proof fn lemma_occurs_shift(hay: Seq<u8>, needle: Seq<u8>, from: int, at: int)
    requires
        0 <= from <= hay.len(),
        0 <= at,
    ensures
        occurs_at(hay.skip(from), needle, at) == occurs_at(hay, needle, from + at),
{
    if from + at + needle.len() <= hay.len() {
        assert(hay.skip(from).subrange(at, at + needle.len()) =~= hay.subrange(
            from + at,
            from + at + needle.len(),
        ));
    }
}

/// What stands in a byte string stays where it is when more is appended.
pub proof fn lemma_occurs_grow(hay: Seq<u8>, more: Seq<u8>, needle: Seq<u8>, at: int)
    requires
        at + needle.len() <= hay.len(),
    ensures
        occurs_at(hay + more, needle, at) == occurs_at(hay, needle, at),
{
    if 0 <= at {
        assert((hay + more).subrange(at, at + needle.len()) =~= hay.subrange(
            at,
            at + needle.len(),
        ));
    }
}

/// The last place at or after `from` where `needle` stands in `hay`. The needle
/// begins with a byte that it holds nowhere else, so no two of its occurrences
/// overlap.
pub fn find_last_from(hay: &[u8], needle: &[u8], from: usize) -> (r: Option<usize>)
    requires
        from <= hay@.len(),
        needle@.len() > 0,
        forall|i: int| 0 < i < needle@.len() ==> #[trigger] needle@[i] != needle@[0],
    ensures
        match r {
            Some(p) => from <= p && occurs_last_at(hay@, needle@, p as int),
            None => forall|i: int| from <= i ==> !occurs_at(hay@, needle@, i),
        },
{
    let n: usize = needle.len();
    let mut at: usize = from;
    let mut last: Option<usize> = None;
    loop
        invariant
            from <= at <= hay@.len(),
            n == needle@.len() > 0,
            forall|i: int| 0 < i < needle@.len() ==> #[trigger] needle@[i] != needle@[0],
            match last {
                Some(p) => from <= p && occurs_at(hay@, needle@, p as int) && forall|i: int|
                    p < i < at ==> !occurs_at(hay@, needle@, i),
                None => forall|i: int| from <= i < at ==> !occurs_at(hay@, needle@, i),
            },
        decreases hay@.len() - at,
    {
        let rest: &[u8] = &hay[at..hay.len()];
        assert(rest@ =~= hay@.skip(at as int));
        match memchr::memmem::find(rest, needle) {
            None => {
                assert forall|i: int| at <= i implies !occurs_at(hay@, needle@, i) by {
                    lemma_occurs_shift(hay@, needle@, at as int, i - at);
                    assert(!occurs_at(rest@, needle@, i - at));
                }
                return last;
            },
            Some(k) => {
                let p: usize = at + k;
                proof {
                    lemma_occurs_shift(hay@, needle@, at as int, k as int);
                    assert forall|i: int| at <= i < p implies !occurs_at(hay@, needle@, i) by {
                        lemma_occurs_shift(hay@, needle@, at as int, i - at);
                    }
                    assert forall|i: int| p < i < p + n implies !occurs_at(hay@, needle@, i) by {
                        if occurs_at(hay@, needle@, i) {
                            assert(hay@.subrange(i, i + n)[0] == needle@[0]);
                            assert(hay@.subrange(p as int, p + n)[i - p] == needle@[i - p]);
                        }
                    }
                }
                last = Some(p);
                at = p + n;
            },
        }
    }
}

} // verus!
