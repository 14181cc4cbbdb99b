//! Finding the longest match for a query among the suffixes of a text, by binary search in
//! the text's suffix array.

use vstd::prelude::*;
use std::cmp::Ordering;

verus! {

/// The first index from `i` on at which `a` and `b` differ or one of them ends.
pub open spec fn first_difference(a: Seq<u8>, b: Seq<u8>, i: int) -> int
    decreases a.len() - i,
{
    if 0 <= i < a.len() && i < b.len() && a[i] == b[i] {
        first_difference(a, b, i + 1)
    } else {
        i
    }
}

/// Length of the longest common prefix of `a` and `b`.
pub open spec fn common_prefix_len(a: Seq<u8>, b: Seq<u8>) -> int {
    first_difference(a, b, 0)
}

/// `k` is the length of the longest common prefix of `a` and `b`: they agree on their first
/// `k` bytes, and then one of them ends or they differ.
pub open spec fn is_common_prefix_len(a: Seq<u8>, b: Seq<u8>, k: int) -> bool {
    &&& 0 <= k <= a.len()
    &&& k <= b.len()
    &&& forall|i: int| 0 <= i < k ==> a[i] == b[i]
    &&& k == a.len() || k == b.len() || a[k] != b[k]
}

proof fn lemma_first_difference(a: Seq<u8>, b: Seq<u8>, i: int)
    requires
        0 <= i <= a.len(),
        i <= b.len(),
        forall|j: int| 0 <= j < i ==> a[j] == b[j],
    ensures
        is_common_prefix_len(a, b, first_difference(a, b, i)),
        i <= first_difference(a, b, i),
    decreases a.len() - i,
{
    if i < a.len() && i < b.len() && a[i] == b[i] {
        lemma_first_difference(a, b, i + 1);
    }
}

/// The recursive definition gives the longest common prefix, and no other number does.
pub proof fn lemma_common_prefix_len(a: Seq<u8>, b: Seq<u8>)
    ensures
        is_common_prefix_len(a, b, common_prefix_len(a, b)),
        forall|k: int| is_common_prefix_len(a, b, k) ==> k == common_prefix_len(a, b),
{
    lemma_first_difference(a, b, 0);
    let n = common_prefix_len(a, b);
    assert forall|k: int| is_common_prefix_len(a, b, k) implies k == n by {
        if k < n {
            assert(a[k] == b[k]);
        } else if n < k {
            assert(a[n] == b[n]);
        }
    }
}

/// The order of `a` and `b` when only the first `min(|a|, |b|)` bytes of each count.
pub open spec fn prefix_order(a: Seq<u8>, b: Seq<u8>) -> Ordering {
    let k = common_prefix_len(a, b);
    if k == a.len() || k == b.len() {
        Ordering::Equal
    } else if a[k] < b[k] {
        Ordering::Less
    } else {
        Ordering::Greater
    }
}

/// `a` does not come after `b` when only the first `min(|a|, |b|)` bytes of each count.
pub open spec fn prefix_not_greater(a: Seq<u8>, b: Seq<u8>) -> bool {
    let k = common_prefix_len(a, b);
    k == a.len() || k == b.len() || a[k] < b[k]
}

/// Number of leading bytes that `a` and `b` have in common.
pub fn match_len(a: &[u8], b: &[u8]) -> (len: usize)
    ensures
        len == common_prefix_len(a@, b@),
{
    let mut i: usize = 0;
    while i < a.len() && i < b.len() && a[i] == b[i]
        invariant
            i <= a.len(),
            i <= b.len(),
            forall|j: int| 0 <= j < i ==> a@[j] == b@[j],
        decreases a.len() - i,
    {
        i += 1;
    }
    proof {
        lemma_common_prefix_len(a@, b@);
        assert(is_common_prefix_len(a@, b@, i as int));
    }
    i
}

/// Compares `a` and `b` over the length of the shorter one.
pub fn r_memcmp(a: &[u8], b: &[u8]) -> (order: Ordering)
    ensures
        order == prefix_order(a@, b@),
{
    let k = match_len(a, b);
    proof {
        lemma_common_prefix_len(a@, b@);
    }
    if k == a.len() || k == b.len() {
        Ordering::Equal
    } else if a[k] < b[k] {
        Ordering::Less
    } else {
        Ordering::Greater
    }
}

fn not_greater(a: &[u8], b: &[u8]) -> (r: bool)
    ensures
        r == prefix_not_greater(a@, b@),
{
    match r_memcmp(a, b) {
        Ordering::Greater => false,
        _ => true,
    }
}

/// Every entry of `sa` is a position in a text of `n` bytes, its end included.
pub open spec fn positions_within(sa: Seq<i32>, n: int) -> bool {
    forall|i: int| 0 <= i < sa.len() ==> 0 <= #[trigger] sa[i] <= n
}

/// The suffix of `text` that entry `i` of `sa` points to.
pub open spec fn suffix_at(sa: Seq<i32>, text: Seq<u8>, i: int) -> Seq<u8> {
    text.skip(sa[i] as int)
}

/// A match: how many bytes of the query it covers, and where in the text it starts.
pub struct Match {
    pub len: int,
    pub pos: int,
}

/// What the binary search between entries `st` and `en` of `sa` arrives at: it halves the
/// range, keeping the upper half while the middle suffix is not greater than the query, and
/// of the two entries left it takes the one with the longer match, the upper one if they
/// match equally.
pub open spec fn search_spec(sa: Seq<i32>, text: Seq<u8>, query: Seq<u8>, st: int, en: int) -> Match
    decreases en - st,
{
    if en - st < 2 {
        let x = common_prefix_len(suffix_at(sa, text, st), query);
        let y = common_prefix_len(suffix_at(sa, text, en), query);
        if x > y {
            Match { len: x, pos: sa[st] as int }
        } else {
            Match { len: y, pos: sa[en] as int }
        }
    } else {
        let mid = st + (en - st) / 2;
        if prefix_not_greater(suffix_at(sa, text, mid), query) {
            search_spec(sa, text, query, mid, en)
        } else {
            search_spec(sa, text, query, st, mid)
        }
    }
}

/// The search never returns a negative length.
pub proof fn lemma_search_len(sa: Seq<i32>, text: Seq<u8>, query: Seq<u8>, st: int, en: int)
    ensures
        0 <= search_spec(sa, text, query, st, en).len,
    decreases en - st,
{
    if en - st < 2 {
        lemma_common_prefix_len(suffix_at(sa, text, st), query);
        lemma_common_prefix_len(suffix_at(sa, text, en), query);
    } else {
        let mid = st + (en - st) / 2;
        if prefix_not_greater(suffix_at(sa, text, mid), query) {
            lemma_search_len(sa, text, query, mid, en);
        } else {
            lemma_search_len(sa, text, query, st, mid);
        }
    }
}

/// The match that the search returns starts at an entry of the range, and its length is the
/// true length of the match there.
pub proof fn lemma_search_is_match(sa: Seq<i32>, text: Seq<u8>, query: Seq<u8>, st: int, en: int)
    requires
        0 <= st <= en < sa.len(),
        positions_within(sa, text.len() as int),
    ensures
        ({
            let m = search_spec(sa, text, query, st, en);
            &&& 0 <= m.pos <= text.len()
            &&& m.len == common_prefix_len(text.skip(m.pos), query)
            &&& 0 <= m.len <= query.len()
            &&& m.pos + m.len <= text.len()
            &&& exists|i: int| st <= i <= en && m.pos == #[trigger] sa[i]
        }),
    decreases en - st,
{
    if en - st < 2 {
        lemma_common_prefix_len(suffix_at(sa, text, st), query);
        lemma_common_prefix_len(suffix_at(sa, text, en), query);
        let m = search_spec(sa, text, query, st, en);
        assert(m.pos == sa[st] || m.pos == sa[en]);
    } else {
        let mid = st + (en - st) / 2;
        if prefix_not_greater(suffix_at(sa, text, mid), query) {
            lemma_search_is_match(sa, text, query, mid, en);
        } else {
            lemma_search_is_match(sa, text, query, st, mid);
        }
    }
}

/// Searches the entries `st..=en` of `sorted`, a suffix array of `old` with one more entry
/// at its end, for the suffix that shares the longest prefix with `new`. Returns the length
/// of the match and stores its position in `pos`. Over the whole of a suffix array no match
/// is longer than the one returned, see `lemma_search_is_longest`.
pub fn search(sorted: &[i32], old: &[u8], new: &[u8], st: usize, en: usize, pos: &mut i64) -> (len: i64)
    requires
        st <= en < sorted.len(),
        positions_within(sorted@, old.len() as int),
        new.len() <= i64::MAX,
    ensures
        len == search_spec(sorted@, old@, new@, st as int, en as int).len,
        *final(pos) == search_spec(sorted@, old@, new@, st as int, en as int).pos,
        0 <= *final(pos) <= old.len(),
        len == common_prefix_len(old@.skip(*final(pos) as int), new@),
    decreases en - st,
{
    proof {
        lemma_search_is_match(sorted@, old@, new@, st as int, en as int);
    }
    if en - st < 2 {
        let first = sorted[st] as usize;
        let second = sorted[en] as usize;
        let x = match_len(&old[first..old.len()], new);
        let y = match_len(&old[second..old.len()], new);
        proof {
            lemma_common_prefix_len(suffix_at(sorted@, old@, st as int), new@);
            lemma_common_prefix_len(suffix_at(sorted@, old@, en as int), new@);
        }
        if x > y {
            *pos = sorted[st] as i64;
            x as i64
        } else {
            *pos = sorted[en] as i64;
            y as i64
        }
    } else {
        let mid = st + (en - st) / 2;
        let start = sorted[mid] as usize;
        if not_greater(&old[start..old.len()], new) {
            search(sorted, old, new, mid, en, pos)
        } else {
            search(sorted, old, new, st, mid, pos)
        }
    }
}

/// `a` comes before `b` in lexicographic order: at the first place where they differ `a`
/// has the smaller byte, or `a` ends there and `b` does not.
pub open spec fn lex_less(a: Seq<u8>, b: Seq<u8>) -> bool {
    let k = common_prefix_len(a, b);
    k < b.len() && (k == a.len() || a[k] < b[k])
}

/// `sa` is the suffix array of `text`: it holds the start of every suffix but the empty
/// one, each once, in the lexicographic order of the suffixes.
pub open spec fn is_suffix_array(text: Seq<u8>, sa: Seq<i32>) -> bool {
    &&& sa.len() == text.len()
    &&& forall|i: int| 0 <= i < sa.len() ==> 0 <= #[trigger] sa[i] < text.len()
    &&& forall|i: int, j: int|
        0 <= i < j < sa.len() ==> lex_less(
            #[trigger] suffix_at(sa, text, i),
            #[trigger] suffix_at(sa, text, j),
        )
}

/// The suffix array of `text`.
pub open spec fn suffix_array(text: Seq<u8>) -> Seq<i32> {
    choose|sa: Seq<i32>| is_suffix_array(text, sa)
}

/// The common prefix of two sequences does not depend on their order.
pub proof fn lemma_common_prefix_len_symmetric(a: Seq<u8>, b: Seq<u8>)
    ensures
        common_prefix_len(a, b) == common_prefix_len(b, a),
{
    lemma_common_prefix_len(a, b);
    lemma_common_prefix_len(b, a);
    assert(is_common_prefix_len(b, a, common_prefix_len(a, b)));
}

/// Of two sequences at most one comes before the other, and none before itself.
pub proof fn lemma_lex_less_asymmetric(a: Seq<u8>, b: Seq<u8>)
    ensures
        !(lex_less(a, b) && lex_less(b, a)),
        !lex_less(a, a),
{
    lemma_common_prefix_len_symmetric(a, b);
    lemma_common_prefix_len(a, b);
    lemma_common_prefix_len(a, a);
    assert(is_common_prefix_len(a, a, a.len() as int));
}

/// A suffix array holds no position twice.
pub proof fn lemma_suffix_array_distinct(text: Seq<u8>, sa: Seq<i32>, i: int, j: int)
    requires
        is_suffix_array(text, sa),
        0 <= i < sa.len(),
        0 <= j < sa.len(),
        i != j,
    ensures
        sa[i] != sa[j],
{
    lemma_lex_less_asymmetric(suffix_at(sa, text, i), suffix_at(sa, text, j));
    if i < j {
        assert(lex_less(suffix_at(sa, text, i), suffix_at(sa, text, j)));
    } else {
        assert(lex_less(suffix_at(sa, text, j), suffix_at(sa, text, i)));
    }
}

/// A suffix array holds every position of its text.
pub proof fn lemma_suffix_array_onto(text: Seq<u8>, sa: Seq<i32>, p: int)
    requires
        is_suffix_array(text, sa),
        0 <= p < text.len(),
    ensures
        exists|i: int| 0 <= i < sa.len() && #[trigger] sa[i] == p,
{
    let n = text.len() as int;
    let positions = Seq::new(n as nat, |i: int| sa[i] as int);
    assert forall|i: int, j: int|
        0 <= i < positions.len() && 0 <= j < positions.len() && i != j implies positions[i]
        != positions[j] by {
        lemma_suffix_array_distinct(text, sa, i, j);
    }
    positions.unique_seq_to_set();
    vstd::set_lib::lemma_int_range(0, n);
    vstd::seq_lib::seq_to_set_is_finite(positions);
    let all = vstd::set_lib::set_int_range(0, n);
    assert forall|v: int| positions.to_set().contains(v) implies all.contains(v) by {
        let i = choose|i: int| 0 <= i < positions.len() && positions[i] == v;
        assert(positions[i] == sa[i]);
    }
    vstd::set_lib::lemma_subset_equality(positions.to_set(), all);
    assert(all.contains(p));
    assert(positions.to_set().contains(p));
    let i = choose|i: int| 0 <= i < positions.len() && positions[i] == p;
    assert(sa[i] == p);
}

proof fn lemma_suffix_arrays_agree(text: Seq<u8>, a: Seq<i32>, b: Seq<i32>, i: int)
    requires
        is_suffix_array(text, a),
        is_suffix_array(text, b),
        0 <= i < text.len(),
    ensures
        a[i] == b[i],
    decreases i,
{
    if a[i] != b[i] {
        lemma_suffix_array_onto(text, b, a[i] as int);
        let j = choose|j: int| 0 <= j < b.len() && #[trigger] b[j] == a[i] as int;
        lemma_suffix_array_onto(text, a, b[i] as int);
        let k = choose|k: int| 0 <= k < a.len() && #[trigger] a[k] == b[i] as int;
        if j < i {
            lemma_suffix_arrays_agree(text, a, b, j);
            lemma_suffix_array_distinct(text, a, i, j);
        } else if k < i {
            lemma_suffix_arrays_agree(text, a, b, k);
            lemma_suffix_array_distinct(text, b, i, k);
        } else {
            assert(lex_less(suffix_at(b, text, i), suffix_at(b, text, j)));
            assert(lex_less(suffix_at(a, text, i), suffix_at(a, text, k)));
            assert(suffix_at(b, text, j) == suffix_at(a, text, i));
            assert(suffix_at(a, text, k) == suffix_at(b, text, i));
            lemma_lex_less_asymmetric(suffix_at(a, text, i), suffix_at(b, text, i));
        }
    }
}

/// A text has one suffix array only.
pub proof fn lemma_suffix_array_unique(text: Seq<u8>, sa: Seq<i32>)
    requires
        is_suffix_array(text, sa),
    ensures
        sa == suffix_array(text),
{
    let other = suffix_array(text);
    assert forall|i: int| 0 <= i < sa.len() implies sa[i] == other[i] by {
        lemma_suffix_arrays_agree(text, sa, other, i);
    }
    assert(sa =~= other);
}

/// In front of a sequence that is not greater than the query, sequences are not greater
/// than the query either, and match it no longer.
pub proof fn lemma_before_not_greater(a: Seq<u8>, b: Seq<u8>, query: Seq<u8>)
    requires
        lex_less(a, b),
        prefix_not_greater(b, query),
    ensures
        prefix_not_greater(a, query),
        common_prefix_len(a, query) <= common_prefix_len(b, query),
{
    lemma_common_prefix_len(a, b);
    lemma_common_prefix_len(b, query);
    lemma_common_prefix_len(a, query);
    let ab = common_prefix_len(a, b);
    let bq = common_prefix_len(b, query);
    let aq = if ab < bq {
        ab
    } else {
        bq
    };
    assert forall|i: int| 0 <= i < aq implies a[i] == query[i] by {
        assert(a[i] == b[i]);
        assert(b[i] == query[i]);
    }
    assert(is_common_prefix_len(a, query, aq));
}

/// Behind a sequence that is greater than the query, sequences are greater than the query
/// too, and match it no longer.
pub proof fn lemma_behind_greater(a: Seq<u8>, b: Seq<u8>, query: Seq<u8>)
    requires
        lex_less(a, b),
        !prefix_not_greater(a, query),
    ensures
        !prefix_not_greater(b, query),
        common_prefix_len(b, query) <= common_prefix_len(a, query),
{
    lemma_common_prefix_len(a, b);
    lemma_common_prefix_len(b, query);
    lemma_common_prefix_len(a, query);
    let ab = common_prefix_len(a, b);
    let aq = common_prefix_len(a, query);
    let bq = if ab < aq {
        ab
    } else {
        aq
    };
    assert forall|i: int| 0 <= i < bq implies b[i] == query[i] by {
        assert(a[i] == b[i]);
        assert(a[i] == query[i]);
    }
    assert(is_common_prefix_len(b, query, bq));
}

/// How many bytes of the query the suffix at entry `i` matches.
pub open spec fn match_len_at(sa: Seq<i32>, text: Seq<u8>, query: Seq<u8>, i: int) -> int {
    common_prefix_len(suffix_at(sa, text, i), query)
}

/// `sa` is the suffix array of `text` with one more entry behind it, which is a position
/// in `text` or its end.
pub open spec fn is_search_index(text: Seq<u8>, sa: Seq<i32>) -> bool {
    &&& sa.len() == text.len() + 1
    &&& is_suffix_array(text, sa.drop_last())
    &&& 0 <= sa.last() <= text.len()
}

proof fn lemma_search_range(sa: Seq<i32>, text: Seq<u8>, query: Seq<u8>, st: int, en: int)
    requires
        is_search_index(text, sa),
        0 <= st <= en <= text.len(),
        forall|i: int|
            0 <= i <= st && i < text.len() ==> #[trigger] match_len_at(sa, text, query, i)
                <= match_len_at(sa, text, query, st),
        forall|i: int|
            en <= i < text.len() ==> #[trigger] match_len_at(sa, text, query, i) <= match_len_at(
                sa,
                text,
                query,
                en,
            ),
    ensures
        forall|i: int|
            0 <= i < text.len() ==> #[trigger] match_len_at(sa, text, query, i) <= search_spec(
                sa,
                text,
                query,
                st,
                en,
            ).len,
    decreases en - st,
{
    let suffixes = sa.drop_last();
    assert forall|i: int| 0 <= i < text.len() implies suffix_at(sa, text, i) == suffix_at(
        suffixes,
        text,
        i,
    ) by {
        assert(suffixes[i] == sa[i]);
    }
    if en - st < 2 {
    } else {
        let mid = st + (en - st) / 2;
        if prefix_not_greater(suffix_at(sa, text, mid), query) {
            assert forall|i: int| 0 <= i <= mid && i < text.len() implies #[trigger] match_len_at(
                sa,
                text,
                query,
                i,
            ) <= match_len_at(sa, text, query, mid) by {
                if i < mid {
                    assert(lex_less(suffix_at(suffixes, text, i), suffix_at(suffixes, text, mid)));
                    lemma_before_not_greater(
                        suffix_at(sa, text, i),
                        suffix_at(sa, text, mid),
                        query,
                    );
                }
            }
            lemma_search_range(sa, text, query, mid, en);
        } else {
            assert forall|i: int| mid <= i < text.len() implies #[trigger] match_len_at(
                sa,
                text,
                query,
                i,
            ) <= match_len_at(sa, text, query, mid) by {
                if mid < i {
                    assert(lex_less(suffix_at(suffixes, text, mid), suffix_at(suffixes, text, i)));
                    lemma_behind_greater(suffix_at(sa, text, mid), suffix_at(sa, text, i), query);
                }
            }
            lemma_search_range(sa, text, query, st, mid);
        }
    }
}

/// The search over a whole suffix array finds the longest match that there is: no part
/// of the text has more bytes in common with the start of the query than the match that
/// the search returns.
pub proof fn lemma_search_is_longest(sa: Seq<i32>, text: Seq<u8>, query: Seq<u8>, at: int)
    requires
        is_search_index(text, sa),
        0 <= at <= text.len(),
    ensures
        common_prefix_len(text.skip(at), query) <= search_spec(
            sa,
            text,
            query,
            0,
            text.len() as int,
        ).len,
{
    let n = text.len() as int;
    let found = search_spec(sa, text, query, 0, n);
    if at == n {
        lemma_common_prefix_len(text.skip(at), query);
        lemma_search_len(sa, text, query, 0, n);
    } else {
        lemma_search_range(sa, text, query, 0, n);
        lemma_suffix_array_onto(text, sa.drop_last(), at);
        let i = choose|i: int| 0 <= i < sa.drop_last().len() && #[trigger] sa.drop_last()[i] == at;
        assert(sa[i] == at);
        assert(match_len_at(sa, text, query, i) <= found.len);
    }
}

/// What comes before something that comes before a third comes before the third.
pub proof fn lemma_lex_less_transitive(a: Seq<u8>, b: Seq<u8>, c: Seq<u8>)
    requires
        lex_less(a, b),
        lex_less(b, c),
    ensures
        lex_less(a, c),
{
    lemma_common_prefix_len(a, b);
    lemma_common_prefix_len(b, c);
    lemma_common_prefix_len(a, c);
    let ab = common_prefix_len(a, b);
    let bc = common_prefix_len(b, c);
    let ac = if ab < bc {
        ab
    } else {
        bc
    };
    assert forall|i: int| 0 <= i < ac implies a[i] == c[i] by {
        assert(a[i] == b[i]);
        assert(b[i] == c[i]);
    }
    assert(is_common_prefix_len(a, c, ac));
}

/// Of two sequences of different lengths one comes before the other.
pub proof fn lemma_lex_less_total(a: Seq<u8>, b: Seq<u8>)
    requires
        a.len() != b.len(),
    ensures
        lex_less(a, b) || lex_less(b, a),
{
    lemma_common_prefix_len(a, b);
    lemma_common_prefix_len_symmetric(a, b);
}

/// The place of position `p` among the sorted positions `sorted`, looked for from `i` on:
/// the first entry whose suffix does not come before the suffix at `p`.
pub open spec fn place_of(text: Seq<u8>, sorted: Seq<i32>, p: int, i: int) -> int
    decreases sorted.len() - i,
{
    if 0 <= i < sorted.len() && lex_less(suffix_at(sorted, text, i), text.skip(p)) {
        place_of(text, sorted, p, i + 1)
    } else {
        i
    }
}

/// The sequence `sorted` with `p` put in at `at`.
pub open spec fn put_in(sorted: Seq<i32>, at: int, p: i32) -> Seq<i32> {
    Seq::new(
        sorted.len() + 1,
        |i: int|
            if i < at {
                sorted[i]
            } else if i == at {
                p
            } else {
                sorted[i - 1]
            },
    )
}

/// The first `k` positions of `text`, in the order of their suffixes.
pub open spec fn sorted_positions(text: Seq<u8>, k: nat) -> Seq<i32>
    decreases k,
{
    if k == 0 {
        Seq::empty()
    } else {
        let sorted = sorted_positions(text, (k - 1) as nat);
        put_in(sorted, place_of(text, sorted, k - 1, 0), (k - 1) as i32)
    }
}

/// `sorted` holds positions below `k`, in the order of their suffixes.
pub open spec fn in_suffix_order(text: Seq<u8>, sorted: Seq<i32>, k: int) -> bool {
    &&& forall|i: int| 0 <= i < sorted.len() ==> 0 <= #[trigger] sorted[i] < k
    &&& forall|i: int, j: int|
        0 <= i < j < sorted.len() ==> lex_less(
            #[trigger] suffix_at(sorted, text, i),
            #[trigger] suffix_at(sorted, text, j),
        )
}

proof fn lemma_place_of(text: Seq<u8>, sorted: Seq<i32>, p: int, i: int)
    requires
        0 <= i <= sorted.len(),
        forall|j: int| 0 <= j < i ==> lex_less(#[trigger] suffix_at(sorted, text, j), text.skip(p)),
    ensures
        i <= place_of(text, sorted, p, i) <= sorted.len(),
        forall|j: int|
            0 <= j < place_of(text, sorted, p, i) ==> lex_less(
                #[trigger] suffix_at(sorted, text, j),
                text.skip(p),
            ),
        place_of(text, sorted, p, i) < sorted.len() ==> !lex_less(
            suffix_at(sorted, text, place_of(text, sorted, p, i)),
            text.skip(p),
        ),
    decreases sorted.len() - i,
{
    if i < sorted.len() && lex_less(suffix_at(sorted, text, i), text.skip(p)) {
        lemma_place_of(text, sorted, p, i + 1);
    }
}

proof fn lemma_sorted_positions(text: Seq<u8>, k: nat)
    requires
        k <= text.len(),
        k <= i32::MAX,
    ensures
        sorted_positions(text, k).len() == k,
        in_suffix_order(text, sorted_positions(text, k), k as int),
    decreases k,
{
    if k > 0 {
        let p = (k - 1) as int;
        let sorted = sorted_positions(text, (k - 1) as nat);
        lemma_sorted_positions(text, (k - 1) as nat);
        lemma_place_of(text, sorted, p, 0);
        let at = place_of(text, sorted, p, 0);
        let more = put_in(sorted, at, p as i32);
        assert forall|i: int| 0 <= i < more.len() implies suffix_at(more, text, i) == (if i < at {
            suffix_at(sorted, text, i)
        } else if i == at {
            text.skip(p)
        } else {
            suffix_at(sorted, text, i - 1)
        }) by {}
        assert forall|i: int, j: int| 0 <= i < j < more.len() implies lex_less(
            #[trigger] suffix_at(more, text, i),
            #[trigger] suffix_at(more, text, j),
        ) by {
            if j < at {
                assert(lex_less(suffix_at(sorted, text, i), suffix_at(sorted, text, j)));
            } else if j == at {
                assert(lex_less(suffix_at(sorted, text, i), text.skip(p)));
            } else {
                // The entry at `at` does not come before `p`, so it comes behind it, and
                // so do the entries behind that one.
                assert(sorted[at] != p);
                lemma_lex_less_total(suffix_at(sorted, text, at), text.skip(p));
                if at < j - 1 {
                    assert(lex_less(suffix_at(sorted, text, at), suffix_at(sorted, text, j - 1)));
                    lemma_lex_less_transitive(
                        text.skip(p),
                        suffix_at(sorted, text, at),
                        suffix_at(sorted, text, j - 1),
                    );
                }
                if i < at {
                    assert(lex_less(suffix_at(sorted, text, i), text.skip(p)));
                    lemma_lex_less_transitive(
                        suffix_at(sorted, text, i),
                        text.skip(p),
                        suffix_at(sorted, text, j - 1),
                    );
                } else if i > at {
                    assert(lex_less(suffix_at(sorted, text, i - 1), suffix_at(sorted, text, j - 1)));
                }
            }
        }
    }
}

/// Every text of less than `i32::MAX` bytes has a suffix array.
pub proof fn lemma_suffix_array_exists(text: Seq<u8>)
    requires
        text.len() <= i32::MAX,
    ensures
        is_suffix_array(text, suffix_array(text)),
{
    lemma_sorted_positions(text, text.len());
    assert(is_suffix_array(text, sorted_positions(text, text.len())));
}

} // verus!
