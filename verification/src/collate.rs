//! Collation: entries are ordered by a case-insensitive sort key derived
//! from the visible name, with a stable sort, so that entries with equal
//! keys keep their enumeration order.

use vstd::prelude::*;
use vstd::string::{StrSliceExecFns, StringExecFns};
use crate::entry::DirectoryEntery;
use crate::entry::get_entry_name_without_dot;
use crate::entry::visible_name;

verus! {

/// Strict lexicographic order on character sequences by scalar value — the
/// order that comparing the strings themselves gives.
pub open spec fn lex_lt(a: Seq<char>, b: Seq<char>) -> bool
    decreases a.len(),
{
    if b.len() == 0 {
        false
    } else if a.len() == 0 {
        true
    } else if a[0] != b[0] {
        a[0] < b[0]
    } else {
        lex_lt(a.drop_first(), b.drop_first())
    }
}

proof fn lemma_lex_lt_irrefl(a: Seq<char>)
    ensures
        !lex_lt(a, a),
    decreases a.len(),
{
    if a.len() > 0 {
        lemma_lex_lt_irrefl(a.drop_first());
    }
}

proof fn lemma_lex_lt_asym(a: Seq<char>, b: Seq<char>)
    requires
        lex_lt(a, b),
    ensures
        !lex_lt(b, a),
    decreases a.len(),
{
    if a.len() > 0 && b.len() > 0 && a[0] == b[0] {
        lemma_lex_lt_asym(a.drop_first(), b.drop_first());
    }
}

proof fn lemma_lex_lt_trans(a: Seq<char>, b: Seq<char>, c: Seq<char>)
    requires
        lex_lt(a, b),
        lex_lt(b, c),
    ensures
        lex_lt(a, c),
    decreases a.len(),
{
    if a.len() > 0 && b.len() > 0 && c.len() > 0 && a[0] == b[0] && b[0] == c[0] {
        lemma_lex_lt_trans(a.drop_first(), b.drop_first(), c.drop_first());
    }
}

proof fn lemma_lex_lt_connected(a: Seq<char>, b: Seq<char>)
    requires
        !lex_lt(a, b),
        !lex_lt(b, a),
    ensures
        a == b,
    decreases a.len(),
{
    if a.len() == 0 {
        assert(b.len() == 0);
        assert(a =~= b);
    } else {
        assert(b.len() > 0);
        assert(a[0] == b[0]);
        lemma_lex_lt_connected(a.drop_first(), b.drop_first());
        assert forall|i: int| 0 <= i < a.len() implies a[i] == b[i] by {
            if i > 0 {
                assert(a[i] == a.drop_first()[i - 1]);
                assert(b[i] == b.drop_first()[i - 1]);
            }
        }
        assert(a =~= b);
    }
}

/// From `b` not below `a` and `c` not below `b`, `c` is not below `a`.
proof fn lemma_lex_le_trans(a: Seq<char>, b: Seq<char>, c: Seq<char>)
    requires
        !lex_lt(b, a),
        !lex_lt(c, b),
    ensures
        !lex_lt(c, a),
{
    if lex_lt(c, a) {
        if lex_lt(a, b) {
            lemma_lex_lt_trans(c, a, b);
        } else {
            lemma_lex_lt_connected(a, b);
        }
    }
}

/// Compares two strings in the order `lex_lt` states.
fn str_lt(a: &str, b: &str) -> (r: bool)
    ensures
        r == lex_lt(a@, b@),
{
    let la = a.unicode_len();
    let lb = b.unicode_len();
    let min = if la < lb { la } else { lb };
    let mut i: usize = 0;
    proof {
        assert(a@.skip(0) =~= a@);
        assert(b@.skip(0) =~= b@);
    }
    while i < min
        invariant
            i <= min,
            min == if la < lb { la } else { lb },
            la == a@.len(),
            lb == b@.len(),
            lex_lt(a@, b@) == lex_lt(a@.skip(i as int), b@.skip(i as int)),
        decreases min - i,
    {
        let ca = a.get_char(i);
        let cb = b.get_char(i);
        proof {
            assert(a@.skip(i as int)[0] == a@[i as int]);
            assert(b@.skip(i as int)[0] == b@[i as int]);
        }
        if ca != cb {
            return ca < cb;
        }
        proof {
            assert(a@.skip(i as int).drop_first() =~= a@.skip(i + 1));
            assert(b@.skip(i as int).drop_first() =~= b@.skip(i + 1));
        }
        i += 1;
    }
    proof {
        assert(a@.skip(min as int).len() == la - min);
        assert(b@.skip(min as int).len() == lb - min);
    }
    la < lb
}

/// The case-folded form that `str::to_lowercase` returns, named as a
/// function of the input characters alone.
pub uninterp spec fn lower_of(s: Seq<char>) -> Seq<char>;

/// Relies on std's `str::to_lowercase`: its result depends on the input
/// characters alone, and is named `lower_of` above.
#[verifier::external_body]
fn lowercase(s: &str) -> (r: String)
    ensures
        r@ == lower_of(s@),
{
    s.to_lowercase()
}

/// The sort key of an entry: its case-folded visible name (the display
/// name with the hidden dot stripped).
pub open spec fn sort_key_of(e: DirectoryEntery) -> Seq<char> {
    lower_of(visible_name(e))
}

/// Computes an entry's sort key.
pub fn sort_key(entry: &DirectoryEntery) -> (r: String)
    ensures
        r@ == sort_key_of(*entry),
{
    let base = get_entry_name_without_dot(entry);
    lowercase(base.as_str())
}

/// Whether `a` orders strictly before `b` by sort key.
fn key_lt(a: &DirectoryEntery, b: &DirectoryEntery) -> (r: bool)
    ensures
        r == lex_lt(sort_key_of(*a), sort_key_of(*b)),
{
    let ka = sort_key(a);
    let kb = sort_key(b);
    str_lt(ka.as_str(), kb.as_str())
}

/// Non-strict key order: `b`'s key is not below `a`'s.
pub open spec fn key_le(a: DirectoryEntery, b: DirectoryEntery) -> bool {
    !lex_lt(sort_key_of(b), sort_key_of(a))
}

/// The list is ordered by case-insensitive sort key.
pub open spec fn sorted_by_key(s: Seq<DirectoryEntery>) -> bool {
    forall|i: int, j: int| 0 <= i < j < s.len() ==> key_le(s[i], s[j])
}

/// Stable insertion of one entry into a key-ordered list: the entry goes
/// after every entry whose key is not above its own, so a tie keeps the
/// older entry first.
pub open spec fn insert_sorted(s: Seq<DirectoryEntery>, e: DirectoryEntery) -> Seq<DirectoryEntery>
    decreases s.len(),
{
    if s.len() == 0 {
        seq![e]
    } else if lex_lt(sort_key_of(e), sort_key_of(s[0])) {
        seq![e] + s
    } else {
        seq![s[0]] + insert_sorted(s.drop_first(), e)
    }
}

/// Stable sort by case-insensitive key, as a function of the input list:
/// each entry in turn is inserted behind the entries already placed whose
/// keys are not above its own.
pub open spec fn sort_seq(s: Seq<DirectoryEntery>) -> Seq<DirectoryEntery>
    decreases s.len(),
{
    if s.len() == 0 {
        Seq::empty()
    } else {
        insert_sorted(sort_seq(s.drop_last()), s.last())
    }
}

proof fn lemma_insert_sorted_len(s: Seq<DirectoryEntery>, e: DirectoryEntery)
    ensures
        insert_sorted(s, e).len() == s.len() + 1,
    decreases s.len(),
{
    if s.len() > 0 && !lex_lt(sort_key_of(e), sort_key_of(s[0])) {
        lemma_insert_sorted_len(s.drop_first(), e);
    }
}

proof fn lemma_insert_sorted_members(s: Seq<DirectoryEntery>, e: DirectoryEntery)
    ensures
        forall|i: int|
            0 <= i < insert_sorted(s, e).len() ==> (#[trigger] insert_sorted(s, e)[i]) == e
                || s.contains(insert_sorted(s, e)[i]),
    decreases s.len(),
{
    if s.len() > 0 && !lex_lt(sort_key_of(e), sort_key_of(s[0])) {
        lemma_insert_sorted_members(s.drop_first(), e);
        let out = insert_sorted(s, e);
        assert forall|i: int| 0 <= i < out.len() implies (#[trigger] out[i]) == e || s.contains(
            out[i],
        ) by {
            if i == 0 {
                assert(out[0] == s[0]);
                assert(s.contains(s[0]));
            } else {
                let inner = insert_sorted(s.drop_first(), e);
                assert(out[i] == inner[i - 1]);
                if inner[i - 1] != e {
                    let j = choose|j: int|
                        0 <= j < s.drop_first().len() && s.drop_first()[j] == inner[i - 1];
                    assert(s[j + 1] == inner[i - 1]);
                }
            }
        }
    }
}

proof fn lemma_insert_sorted_ordered(s: Seq<DirectoryEntery>, e: DirectoryEntery)
    requires
        sorted_by_key(s),
    ensures
        sorted_by_key(insert_sorted(s, e)),
    decreases s.len(),
{
    let out = insert_sorted(s, e);
    lemma_insert_sorted_len(s, e);
    if s.len() == 0 {
    } else if lex_lt(sort_key_of(e), sort_key_of(s[0])) {
        assert forall|i: int, j: int| 0 <= i < j < out.len() implies key_le(out[i], out[j]) by {
            if i == 0 {
                assert(out[j] == s[j - 1]);
                lemma_lex_lt_asym(sort_key_of(e), sort_key_of(s[0]));
                if j > 1 {
                    assert(key_le(s[0], s[j - 1]));
                    lemma_lex_le_trans(sort_key_of(e), sort_key_of(s[0]), sort_key_of(s[j - 1]));
                }
            } else {
                assert(out[i] == s[i - 1] && out[j] == s[j - 1]);
            }
        }
    } else {
        let rest = s.drop_first();
        assert forall|i: int, j: int| 0 <= i < j < rest.len() implies key_le(rest[i], rest[j]) by {
            assert(rest[i] == s[i + 1] && rest[j] == s[j + 1]);
        }
        lemma_insert_sorted_ordered(rest, e);
        lemma_insert_sorted_members(rest, e);
        let inner = insert_sorted(rest, e);
        assert forall|i: int, j: int| 0 <= i < j < out.len() implies key_le(out[i], out[j]) by {
            if i == 0 {
                assert(out[j] == inner[j - 1]);
                if inner[j - 1] != e {
                    let m = choose|m: int| 0 <= m < rest.len() && rest[m] == inner[j - 1];
                    assert(rest[m] == s[m + 1]);
                    assert(key_le(s[0], s[m + 1]));
                }
            } else {
                assert(out[i] == inner[i - 1] && out[j] == inner[j - 1]);
            }
        }
    }
}

/// The filter that keeps the entries whose sort key is `k`.
pub open spec fn key_is(k: Seq<char>) -> spec_fn(DirectoryEntery) -> bool {
    |x: DirectoryEntery| sort_key_of(x) == k
}

proof fn lemma_filter_singleton(e: DirectoryEntery, pred: spec_fn(DirectoryEntery) -> bool)
    ensures
        pred(e) ==> seq![e].filter(pred) == seq![e],
        !pred(e) ==> seq![e].filter(pred) == Seq::<DirectoryEntery>::empty(),
{
    reveal(Seq::filter);
    let s = seq![e];
    assert(s.drop_last() =~= Seq::<DirectoryEntery>::empty());
    assert(s.drop_last().filter(pred) =~= Seq::<DirectoryEntery>::empty());
    assert(s.last() == e);
    if pred(e) {
        assert(s.filter(pred) == s.drop_last().filter(pred).push(e));
        assert(Seq::<DirectoryEntery>::empty().push(e) =~= seq![e]);
    }
}

proof fn lemma_filter_none(s: Seq<DirectoryEntery>, pred: spec_fn(DirectoryEntery) -> bool)
    requires
        forall|i: int| 0 <= i < s.len() ==> !pred(#[trigger] s[i]),
    ensures
        s.filter(pred) == Seq::<DirectoryEntery>::empty(),
    decreases s.len(),
{
    reveal(Seq::filter);
    if s.len() == 0 {
        assert(s.filter(pred) =~= Seq::<DirectoryEntery>::empty());
    } else {
        assert forall|i: int| 0 <= i < s.drop_last().len() implies !pred(
            #[trigger] s.drop_last()[i],
        ) by {
            assert(s.drop_last()[i] == s[i]);
        }
        lemma_filter_none(s.drop_last(), pred);
        assert(!pred(s.last()));
        assert(s.filter(pred) == s.drop_last().filter(pred));
    }
}

proof fn lemma_insert_sorted_filter(s: Seq<DirectoryEntery>, e: DirectoryEntery, k: Seq<char>)
    requires
        sorted_by_key(s),
    ensures
        insert_sorted(s, e).filter(key_is(k)) == if sort_key_of(e) == k {
            s.filter(key_is(k)).push(e)
        } else {
            s.filter(key_is(k))
        },
    decreases s.len(),
{
    reveal(Seq::filter);
    let pred = key_is(k);
    lemma_filter_singleton(e, pred);
    if s.len() == 0 {
        assert(s =~= Seq::<DirectoryEntery>::empty());
        assert(s.filter(pred) =~= Seq::<DirectoryEntery>::empty());
        if sort_key_of(e) == k {
            assert(seq![e] =~= s.filter(pred).push(e));
        }
    } else if lex_lt(sort_key_of(e), sort_key_of(s[0])) {
        assert(insert_sorted(s, e) == seq![e] + s);
        Seq::filter_distributes_over_add(seq![e], s, pred);
        if sort_key_of(e) == k {
            assert forall|i: int| 0 <= i < s.len() implies !pred(#[trigger] s[i]) by {
                if sort_key_of(s[i]) == k {
                    if i == 0 {
                        lemma_lex_lt_irrefl(k);
                    } else {
                        assert(key_le(s[0], s[i]));
                    }
                }
            }
            lemma_filter_none(s, pred);
            assert(seq![e].filter(pred) + s.filter(pred) =~= s.filter(pred).push(e));
        } else {
            assert(seq![e].filter(pred) + s.filter(pred) =~= s.filter(pred));
        }
    } else {
        let rest = s.drop_first();
        assert forall|i: int, j: int| 0 <= i < j < rest.len() implies key_le(rest[i], rest[j]) by {
            assert(rest[i] == s[i + 1] && rest[j] == s[j + 1]);
        }
        lemma_insert_sorted_filter(rest, e, k);
        lemma_filter_singleton(s[0], pred);
        let inner = insert_sorted(rest, e);
        assert(insert_sorted(s, e) == seq![s[0]] + inner);
        Seq::filter_distributes_over_add(seq![s[0]], inner, pred);
        assert(s =~= seq![s[0]] + rest);
        Seq::filter_distributes_over_add(seq![s[0]], rest, pred);
        assert(s.filter(pred) == seq![s[0]].filter(pred) + rest.filter(pred));
        if sort_key_of(e) == k {
            assert(seq![s[0]].filter(pred) + rest.filter(pred).push(e) =~= (seq![s[0]].filter(pred)
                + rest.filter(pred)).push(e));
        }
    }
}

/// Law: collation orders the list by case-insensitive sort key.
pub proof fn lemma_collation_ordered(s: Seq<DirectoryEntery>)
    ensures
        sorted_by_key(sort_seq(s)),
    decreases s.len(),
{
    if s.len() > 0 {
        lemma_collation_ordered(s.drop_last());
        lemma_insert_sorted_ordered(sort_seq(s.drop_last()), s.last());
    }
}

proof fn lemma_insert_sorted_multiset(s: Seq<DirectoryEntery>, e: DirectoryEntery)
    ensures
        insert_sorted(s, e).to_multiset() == s.to_multiset().insert(e),
    decreases s.len(),
{
    broadcast use vstd::multiset::group_multiset_axioms;

    if s.len() == 0 {
        assert(insert_sorted(s, e) =~= s.insert(0, e));
        vstd::seq_lib::to_multiset_insert(s, 0, e);
    } else if lex_lt(sort_key_of(e), sort_key_of(s[0])) {
        assert(seq![e] + s =~= s.insert(0, e));
        vstd::seq_lib::to_multiset_insert(s, 0, e);
    } else {
        let rest = s.drop_first();
        lemma_insert_sorted_multiset(rest, e);
        let inner = insert_sorted(rest, e);
        assert(seq![s[0]] + inner =~= inner.insert(0, s[0]));
        vstd::seq_lib::to_multiset_insert(inner, 0, s[0]);
        assert(s =~= rest.insert(0, s[0]));
        vstd::seq_lib::to_multiset_insert(rest, 0, s[0]);
        assert(rest.to_multiset().insert(e).insert(s[0]) =~= rest.to_multiset().insert(
            s[0],
        ).insert(e));
    }
}

/// Law: collation permutes the list — the same entries come out, each as
/// often as it went in.
pub proof fn lemma_collation_permutes(s: Seq<DirectoryEntery>)
    ensures
        sort_seq(s).to_multiset() == s.to_multiset(),
        sort_seq(s).len() == s.len(),
    decreases s.len(),
{
    if s.len() > 0 {
        lemma_collation_permutes(s.drop_last());
        lemma_insert_sorted_multiset(sort_seq(s.drop_last()), s.last());
        lemma_insert_sorted_len(sort_seq(s.drop_last()), s.last());
        vstd::seq_lib::to_multiset_build(s.drop_last(), s.last());
        assert(s.drop_last().push(s.last()) =~= s);
    } else {
        assert(sort_seq(s) =~= s);
    }
}

/// Law: collation is stable — for every key, the entries that carry it
/// come out exactly as they went in, in the same relative order.
pub proof fn lemma_collation_stable(s: Seq<DirectoryEntery>, k: Seq<char>)
    ensures
        sort_seq(s).filter(key_is(k)) == s.filter(key_is(k)),
    decreases s.len(),
{
    reveal(Seq::filter);
    if s.len() > 0 {
        lemma_collation_stable(s.drop_last(), k);
        lemma_collation_ordered(s.drop_last());
        lemma_insert_sorted_filter(sort_seq(s.drop_last()), s.last(), k);
        assert(s.filter(key_is(k)) == if key_is(k)(s.last()) {
            s.drop_last().filter(key_is(k)).push(s.last())
        } else {
            s.drop_last().filter(key_is(k))
        });
    }
}

/// Where an entry lands when inserted into a key-ordered list behind the
/// entries whose keys are not above its own.
proof fn lemma_insert_sorted_position(s: Seq<DirectoryEntery>, e: DirectoryEntery, j: int)
    requires
        sorted_by_key(s),
        0 <= j <= s.len(),
        forall|m: int| j <= m < s.len() ==> lex_lt(sort_key_of(e), sort_key_of(#[trigger] s[m])),
        j > 0 ==> !lex_lt(sort_key_of(e), sort_key_of(s[j - 1])),
    ensures
        insert_sorted(s, e) == s.insert(j, e),
    decreases s.len(),
{
    if s.len() == 0 {
        assert(s.insert(0, e) =~= seq![e]);
    } else if j == 0 {
        assert(lex_lt(sort_key_of(e), sort_key_of(s[0])));
        assert(s.insert(0, e) =~= seq![e] + s);
    } else {
        // the walk passes s[0]: e is not below s[j-1], which is not below s[0]
        if j > 1 {
            assert(key_le(s[0], s[j - 1]));
            lemma_lex_le_trans(sort_key_of(s[0]), sort_key_of(s[j - 1]), sort_key_of(e));
        }
        assert(!lex_lt(sort_key_of(e), sort_key_of(s[0])));
        let rest = s.drop_first();
        assert forall|i: int, m: int| 0 <= i < m < rest.len() implies key_le(rest[i], rest[m]) by {
            assert(rest[i] == s[i + 1] && rest[m] == s[m + 1]);
        }
        assert forall|m: int| j - 1 <= m < rest.len() implies lex_lt(
            sort_key_of(e),
            sort_key_of(#[trigger] rest[m]),
        ) by {
            assert(rest[m] == s[m + 1]);
        }
        if j - 1 > 0 {
            assert(rest[j - 2] == s[j - 1]);
        }
        lemma_insert_sorted_position(rest, e, j - 1);
        assert(insert_sorted(s, e) == seq![s[0]] + rest.insert(j - 1, e));
        assert(s.insert(j, e) =~= seq![s[0]] + rest.insert(j - 1, e));
    }
}

/// The index at which `enteries[i]` is inserted into the sorted prefix
/// `enteries[0..i]`: scanning leftwards from `i`, the first index whose
/// left neighbour's key is not above the moved entry's.
fn insertion_point(enteries: &Vec<DirectoryEntery>, i: usize) -> (j: usize)
    requires
        i < enteries@.len(),
    ensures
        j <= i,
        forall|m: int|
            j <= m < i ==> lex_lt(
                sort_key_of(enteries@[i as int]),
                sort_key_of(#[trigger] enteries@[m]),
            ),
        j > 0 ==> !lex_lt(sort_key_of(enteries@[i as int]), sort_key_of(enteries@[j - 1])),
{
    let mut j: usize = i;
    while j > 0
        invariant
            j <= i < enteries@.len(),
            forall|m: int|
                j <= m < i ==> lex_lt(
                    sort_key_of(enteries@[i as int]),
                    sort_key_of(#[trigger] enteries@[m]),
                ),
        decreases j,
    {
        if key_lt(&enteries[i], &enteries[j - 1]) {
            j -= 1;
        } else {
            return j;
        }
    }
    j
}

/// Sorts the entries in place, ascending by case-insensitive sort key and
/// stably: the result is exactly the stable insertion sort `sort_seq`
/// states, so ties keep their enumeration order.
pub fn sort_enteries(enteries: &mut Vec<DirectoryEntery>)
    ensures
        final(enteries)@ == sort_seq(old(enteries)@),
{
    let ghost s = old(enteries)@;
    let mut i: usize = 0;
    while i < enteries.len()
        invariant
            i <= s.len(),
            enteries@.len() == s.len(),
            enteries@ == sort_seq(s.take(i as int)) + s.skip(i as int),
        decreases s.len() - i,
    {
        let ghost p = sort_seq(s.take(i as int));
        proof {
            lemma_sort_seq_len(s.take(i as int));
            lemma_collation_ordered(s.take(i as int));
            assert(enteries@[i as int] == s.skip(i as int)[0]);
            assert(enteries@[i as int] == s[i as int]);
        }
        let j = insertion_point(enteries, i);
        proof {
            assert forall|m: int| j <= m < i implies lex_lt(
                sort_key_of(s[i as int]),
                sort_key_of(#[trigger] p[m]),
            ) by {
                assert(p[m] == enteries@[m]);
            }
            if j > 0 {
                assert(p[j - 1] == enteries@[j - 1]);
            }
        }
        let e = enteries.remove(i);
        proof {
            assert(e == s[i as int]);
        }
        enteries.insert(j, e);
        proof {
            lemma_insert_sorted_position(p, e, j as int);
            assert((p + s.skip(i as int)).remove(i as int) =~= p + s.skip(i + 1));
            assert((p + s.skip(i + 1)).insert(j as int, e) =~= p.insert(j as int, e) + s.skip(
                i + 1,
            ));
            assert(s.take(i + 1).drop_last() =~= s.take(i as int));
            assert(s.take(i + 1).last() == s[i as int]);
            assert(sort_seq(s.take(i + 1)) == insert_sorted(p, e));
        }
        i += 1;
    }
    proof {
        assert(s.take(s.len() as int) =~= s);
        assert(s.skip(s.len() as int) =~= Seq::<DirectoryEntery>::empty());
        assert(sort_seq(s.take(s.len() as int)) + s.skip(s.len() as int) =~= sort_seq(s));
    }
}

proof fn lemma_sort_seq_len(s: Seq<DirectoryEntery>)
    ensures
        sort_seq(s).len() == s.len(),
    decreases s.len(),
{
    if s.len() > 0 {
        lemma_sort_seq_len(s.drop_last());
        lemma_insert_sorted_len(sort_seq(s.drop_last()), s.last());
    }
}

} // verus!

