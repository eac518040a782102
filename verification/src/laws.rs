//! What holds of every merge: order, uniqueness of keys, and what happens
//! when a source is empty or an export is merged with itself.

use vstd::prelude::*;
use crate::bytes::{
    lemma_lex_le_antisym,
    lemma_lex_le_refl,
    lemma_lex_le_total,
    lemma_lex_le_trans,
    lex_le,
    lex_lt,
};
use crate::dedup::accepts;
use crate::entry::Record;
use crate::merge::{head_key, merge_order, merged, survivors, survivors_after, turn_for, Turn};

verus! {

/// The keys of `s` never decrease: what a source has to deliver.
pub open spec fn sorted(s: Seq<Record>) -> bool {
    forall|i: int, j: int| #![trigger s[i], s[j]] 0 <= i < j < s.len() ==> lex_le(s[i].key, s[j].key)
}

/// The keys of `s` increase from each record to the next: an export that
/// holds each key once.
pub open spec fn strictly_sorted(s: Seq<Record>) -> bool {
    forall|i: int, j: int| #![trigger s[i], s[j]] 0 <= i < j < s.len() ==> lex_lt(s[i].key, s[j].key)
}

/// No record of `s` has the key of the record that follows it.
pub open spec fn adjacent_distinct(s: Seq<Record>) -> bool {
    forall|i: int| 0 <= i < s.len() - 1 ==> (#[trigger] s[i]).key != s[i + 1].key
}

/// `k` sorts at or before every key of `s`.
pub open spec fn bounded_below(k: Seq<u8>, s: Seq<Record>) -> bool {
    forall|i: int| 0 <= i < s.len() ==> lex_le(k, (#[trigger] s[i]).key)
}

proof fn lemma_sorted_tail(s: Seq<Record>)
    requires
        sorted(s),
        s.len() > 0,
    ensures
        sorted(s.drop_first()),
        bounded_below(s[0].key, s.drop_first()),
        bounded_below(s[0].key, s),
{
    let t = s.drop_first();
    assert forall|i: int, j: int| 0 <= i < j < t.len() implies lex_le(t[i].key, t[j].key) by {
        assert(t[i] == s[i + 1] && t[j] == s[j + 1]);
    }
    assert forall|i: int| 0 <= i < t.len() implies lex_le(s[0].key, (#[trigger] t[i]).key) by {
        assert(t[i] == s[i + 1]);
    }
    assert forall|i: int| 0 <= i < s.len() implies lex_le(s[0].key, (#[trigger] s[i]).key) by {
        if i == 0 {
            lemma_lex_le_refl(s[0].key);
        }
    }
}

proof fn lemma_bounded_below_weaken(k: Seq<u8>, m: Seq<u8>, s: Seq<Record>)
    requires
        lex_le(k, m),
        bounded_below(m, s),
    ensures
        bounded_below(k, s),
{
    assert forall|i: int| 0 <= i < s.len() implies lex_le(k, (#[trigger] s[i]).key) by {
        lemma_lex_le_trans(k, m, s[i].key);
    }
}

proof fn lemma_cons_sorted(x: Record, s: Seq<Record>)
    requires
        sorted(s),
        bounded_below(x.key, s),
    ensures
        sorted(seq![x] + s),
{
    let t = seq![x] + s;
    assert forall|i: int, j: int| 0 <= i < j < t.len() implies lex_le(t[i].key, t[j].key) by {
        assert(t[j] == s[j - 1]);
        if i > 0 {
            assert(t[i] == s[i - 1]);
        }
    }
}

proof fn lemma_merge_order_bounded(k: Seq<u8>, fresh: Seq<Record>, file: Seq<Record>)
    requires
        bounded_below(k, fresh),
        bounded_below(k, file),
    ensures
        bounded_below(k, merge_order(fresh, file)),
    decreases fresh.len() + file.len(),
{
    match turn_for(head_key(fresh), head_key(file)) {
        Turn::Done => {},
        Turn::File => {
            let rest = file.drop_first();
            assert forall|i: int| 0 <= i < rest.len() implies lex_le(k, (#[trigger] rest[i]).key) by {
                assert(rest[i] == file[i + 1]);
            }
            lemma_merge_order_bounded(k, fresh, rest);
            let m = merge_order(fresh, rest);
            let t = seq![file[0]] + m;
            assert forall|i: int| 0 <= i < t.len() implies lex_le(k, (#[trigger] t[i]).key) by {
                if i > 0 {
                    assert(t[i] == m[i - 1]);
                }
            }
        },
        Turn::Fresh => {
            let rest = fresh.drop_first();
            assert forall|i: int| 0 <= i < rest.len() implies lex_le(k, (#[trigger] rest[i]).key) by {
                assert(rest[i] == fresh[i + 1]);
            }
            lemma_merge_order_bounded(k, rest, file);
            let m = merge_order(rest, file);
            let t = seq![fresh[0]] + m;
            assert forall|i: int| 0 <= i < t.len() implies lex_le(k, (#[trigger] t[i]).key) by {
                if i > 0 {
                    assert(t[i] == m[i - 1]);
                }
            }
        },
    }
}

/// Two sources in key order reach the sink in key order.
pub proof fn lemma_merge_order_sorted(fresh: Seq<Record>, file: Seq<Record>)
    requires
        sorted(fresh),
        sorted(file),
    ensures
        sorted(merge_order(fresh, file)),
    decreases fresh.len() + file.len(),
{
    match turn_for(head_key(fresh), head_key(file)) {
        Turn::Done => {},
        Turn::File => {
            let x = file[0];
            let rest = file.drop_first();
            lemma_sorted_tail(file);
            if fresh.len() > 0 {
                lemma_sorted_tail(fresh);
                lemma_bounded_below_weaken(x.key, fresh[0].key, fresh);
            }
            lemma_merge_order_bounded(x.key, fresh, rest);
            lemma_merge_order_sorted(fresh, rest);
            lemma_cons_sorted(x, merge_order(fresh, rest));
        },
        Turn::Fresh => {
            let x = fresh[0];
            let rest = fresh.drop_first();
            lemma_sorted_tail(fresh);
            if file.len() > 0 {
                lemma_sorted_tail(file);
                lemma_lex_le_total(x.key, file[0].key);
                lemma_bounded_below_weaken(x.key, file[0].key, file);
            }
            lemma_merge_order_bounded(x.key, rest, file);
            lemma_merge_order_sorted(rest, file);
            lemma_cons_sorted(x, merge_order(rest, file));
        },
    }
}

proof fn lemma_survivors_bounded(k: Seq<u8>, last: Option<Seq<u8>>, s: Seq<Record>)
    requires
        bounded_below(k, s),
    ensures
        bounded_below(k, survivors_after(last, s)),
    decreases s.len(),
{
    if s.len() > 0 {
        let rest = s.drop_first();
        assert forall|i: int| 0 <= i < rest.len() implies lex_le(k, (#[trigger] rest[i]).key) by {
            assert(rest[i] == s[i + 1]);
        }
        if accepts(last, s[0].key) {
            lemma_survivors_bounded(k, Some(s[0].key), rest);
            let m = survivors_after(Some(s[0].key), rest);
            let t = seq![s[0]] + m;
            assert forall|i: int| 0 <= i < t.len() implies lex_le(k, (#[trigger] t[i]).key) by {
                if i > 0 {
                    assert(t[i] == m[i - 1]);
                }
            }
        } else {
            lemma_survivors_bounded(k, last, rest);
        }
    }
}

/// Dropping records keeps the order of those that stay.
pub proof fn lemma_survivors_sorted(last: Option<Seq<u8>>, s: Seq<Record>)
    requires
        sorted(s),
    ensures
        sorted(survivors_after(last, s)),
    decreases s.len(),
{
    if s.len() > 0 {
        let rest = s.drop_first();
        lemma_sorted_tail(s);
        if accepts(last, s[0].key) {
            lemma_survivors_sorted(Some(s[0].key), rest);
            lemma_survivors_bounded(s[0].key, Some(s[0].key), rest);
            lemma_cons_sorted(s[0], survivors_after(Some(s[0].key), rest));
        } else {
            lemma_survivors_sorted(last, rest);
        }
    }
}

/// Of the records that are written, none has the key of the one written
/// before it; the first of them does not have the key `last`.
pub proof fn lemma_survivors_distinct(last: Option<Seq<u8>>, s: Seq<Record>)
    ensures
        adjacent_distinct(survivors_after(last, s)),
        survivors_after(last, s).len() > 0 ==> accepts(last, survivors_after(last, s)[0].key),
    decreases s.len(),
{
    if s.len() > 0 {
        let rest = s.drop_first();
        if accepts(last, s[0].key) {
            lemma_survivors_distinct(Some(s[0].key), rest);
            let m = survivors_after(Some(s[0].key), rest);
            let t = seq![s[0]] + m;
            assert forall|i: int| 0 <= i < t.len() - 1 implies (#[trigger] t[i]).key != t[i + 1].key by {
                assert(t[i + 1] == m[i]);
                if i > 0 {
                    assert(t[i] == m[i - 1]);
                }
            }
        } else {
            lemma_survivors_distinct(last, rest);
        }
    }
}

/// Records in key order of which no two neighbours share a key have keys
/// that increase.
pub proof fn lemma_sorted_distinct_is_strict(s: Seq<Record>)
    requires
        sorted(s),
        adjacent_distinct(s),
    ensures
        strictly_sorted(s),
{
    assert forall|i: int, j: int| 0 <= i < j < s.len() implies lex_lt(s[i].key, s[j].key) by {
        if s[i].key == s[j].key {
            assert(lex_le(s[i].key, s[i + 1].key));
            if i + 1 < j {
                assert(lex_le(s[i + 1].key, s[j].key));
            } else {
                lemma_lex_le_refl(s[j].key);
            }
            lemma_lex_le_antisym(s[i].key, s[i + 1].key);
        }
    }
}

/// Sortedness: sources in key order give an output in key order.
pub proof fn lemma_merged_sorted(fresh: Seq<Record>, file: Seq<Record>)
    requires
        sorted(fresh),
        sorted(file),
    ensures
        sorted(merged(fresh, file)),
        strictly_sorted(merged(fresh, file)),
{
    lemma_merge_order_sorted(fresh, file);
    lemma_survivors_sorted(None, merge_order(fresh, file));
    lemma_survivors_distinct(None, merge_order(fresh, file));
    lemma_sorted_distinct_is_strict(merged(fresh, file));
}

/// Uniqueness: whatever the sources hold, no record of the output has the
/// key of the record after it.
pub proof fn lemma_merged_distinct(fresh: Seq<Record>, file: Seq<Record>)
    ensures
        adjacent_distinct(merged(fresh, file)),
{
    lemma_survivors_distinct(None, merge_order(fresh, file));
}

/// With no earlier export, the records reach the sink as the fresh source
/// delivers them.
pub proof fn lemma_merge_order_no_file(fresh: Seq<Record>)
    ensures
        merge_order(fresh, Seq::empty()) == fresh,
    decreases fresh.len(),
{
    if fresh.len() > 0 {
        lemma_merge_order_no_file(fresh.drop_first());
        assert(seq![fresh[0]] + fresh.drop_first() =~= fresh);
    }
}

/// With no fresh record, the records reach the sink as the earlier export
/// holds them.
pub proof fn lemma_merge_order_no_fresh(file: Seq<Record>)
    ensures
        merge_order(Seq::empty(), file) == file,
    decreases file.len(),
{
    if file.len() > 0 {
        lemma_merge_order_no_fresh(file.drop_first());
        assert(seq![file[0]] + file.drop_first() =~= file);
    }
}

/// Records whose keys increase are all written, provided that the first of
/// them does not have the key `last`.
pub proof fn lemma_survivors_of_strict(last: Option<Seq<u8>>, s: Seq<Record>)
    requires
        strictly_sorted(s),
        s.len() > 0 ==> accepts(last, s[0].key),
    ensures
        survivors_after(last, s) == s,
    decreases s.len(),
{
    if s.len() > 0 {
        let rest = s.drop_first();
        assert forall|i: int, j: int| 0 <= i < j < rest.len() implies lex_lt(rest[i].key, rest[j].key) by {
            assert(rest[i] == s[i + 1] && rest[j] == s[j + 1]);
        }
        if rest.len() > 0 {
            assert(rest[0] == s[1]);
            assert(lex_lt(s[0].key, s[1].key));
        }
        lemma_survivors_of_strict(Some(s[0].key), rest);
        assert(seq![s[0]] + rest =~= s);
    }
}

/// Empty-source degeneration: with one source empty the output is what the
/// other source holds, less the records that repeat the key before them;
/// where its keys increase, it is that source unchanged.
pub proof fn lemma_merged_one_source(s: Seq<Record>)
    ensures
        merged(s, Seq::empty()) == survivors(s),
        merged(Seq::empty(), s) == survivors(s),
        strictly_sorted(s) ==> survivors(s) == s,
{
    lemma_merge_order_no_file(s);
    lemma_merge_order_no_fresh(s);
    if strictly_sorted(s) {
        lemma_survivors_of_strict(None, s);
    }
}

proof fn lemma_merge_self_after(last: Option<Seq<u8>>, s: Seq<Record>)
    requires
        strictly_sorted(s),
        s.len() > 0 ==> accepts(last, s[0].key),
    ensures
        survivors_after(last, merge_order(s, s)) == s,
    decreases s.len(),
{
    if s.len() > 0 {
        let x = s[0];
        let rest = s.drop_first();
        lemma_lex_le_refl(x.key);
        assert forall|i: int, j: int| 0 <= i < j < rest.len() implies lex_lt(rest[i].key, rest[j].key) by {
            assert(rest[i] == s[i + 1] && rest[j] == s[j + 1]);
        }
        if rest.len() > 0 {
            assert(rest[0] == s[1]);
            assert(lex_lt(s[0].key, s[1].key));
            if lex_le(rest[0].key, x.key) {
                lemma_lex_le_antisym(rest[0].key, x.key);
            }
        }
        let inner = merge_order(rest, rest);
        assert(merge_order(s, rest) == seq![x] + inner);
        assert(merge_order(s, s) == seq![x] + (seq![x] + inner));
        let once = seq![x] + inner;
        let twice = seq![x] + once;
        assert(twice.drop_first() =~= once);
        assert(once.drop_first() =~= inner);
        lemma_merge_self_after(Some(x.key), rest);
        assert(survivors_after(Some(x.key), once) == survivors_after(Some(x.key), inner));
        assert(survivors_after(last, twice) == seq![x] + survivors_after(Some(x.key), once));
        assert(seq![x] + rest =~= s);
    } else {
        assert(survivors_after(last, merge_order(s, s)) =~= s);
    }
}

/// Idempotence: an export that holds each key once, merged with itself,
/// comes out as it went in.
pub proof fn lemma_merge_self(s: Seq<Record>)
    requires
        strictly_sorted(s),
    ensures
        merged(s, s) == s,
{
    lemma_merge_self_after(None, s);
}

/// Some record of `s` has the key `k`.
pub open spec fn has_key(s: Seq<Record>, k: Seq<u8>) -> bool {
    exists|n: int| 0 <= n < s.len() && (#[trigger] s[n]).key == k
}

/// `k` sorts strictly before every key of `s`; `None` stands for no key.
pub open spec fn strictly_below(k: Option<Seq<u8>>, s: Seq<Record>) -> bool {
    match k {
        Some(k) => forall|i: int| 0 <= i < s.len() ==> lex_lt(k, (#[trigger] s[i]).key),
        None => true,
    }
}

proof fn lemma_strict_tail(s: Seq<Record>)
    requires
        strictly_sorted(s),
        s.len() > 0,
    ensures
        strictly_sorted(s.drop_first()),
        strictly_below(Some(s[0].key), s.drop_first()),
        bounded_below(s[0].key, s),
{
    let t = s.drop_first();
    assert forall|i: int, j: int| 0 <= i < j < t.len() implies lex_lt(t[i].key, t[j].key) by {
        assert(t[i] == s[i + 1] && t[j] == s[j + 1]);
    }
    assert forall|i: int| 0 <= i < t.len() implies lex_lt(s[0].key, (#[trigger] t[i]).key) by {
        assert(t[i] == s[i + 1]);
    }
    assert forall|i: int| 0 <= i < s.len() implies lex_le(s[0].key, (#[trigger] s[i]).key) by {
        if i == 0 {
            lemma_lex_le_refl(s[0].key);
        }
    }
}

/// Every key of either source reaches the sink.
pub proof fn lemma_merge_order_has_keys(fresh: Seq<Record>, file: Seq<Record>)
    ensures
        forall|i: int| 0 <= i < fresh.len() ==> has_key(merge_order(fresh, file), (#[trigger] fresh[i]).key),
        forall|j: int| 0 <= j < file.len() ==> has_key(merge_order(fresh, file), (#[trigger] file[j]).key),
    decreases fresh.len() + file.len(),
{
    let m = merge_order(fresh, file);
    match turn_for(head_key(fresh), head_key(file)) {
        Turn::Done => {},
        Turn::File => {
            let rest = file.drop_first();
            let inner = merge_order(fresh, rest);
            lemma_merge_order_has_keys(fresh, rest);
            assert(m[0] == file[0]);
            assert forall|i: int| 0 <= i < fresh.len() implies has_key(m, (#[trigger] fresh[i]).key) by {
                let n = choose|n: int| 0 <= n < inner.len() && (#[trigger] inner[n]).key == fresh[i].key;
                assert(m[n + 1] == inner[n]);
            }
            assert forall|j: int| 0 <= j < file.len() implies has_key(m, (#[trigger] file[j]).key) by {
                if j > 0 {
                    assert(rest[j - 1] == file[j]);
                    let n = choose|n: int| 0 <= n < inner.len() && (#[trigger] inner[n]).key == rest[j - 1].key;
                    assert(m[n + 1] == inner[n]);
                }
            }
        },
        Turn::Fresh => {
            let rest = fresh.drop_first();
            let inner = merge_order(rest, file);
            lemma_merge_order_has_keys(rest, file);
            assert(m[0] == fresh[0]);
            assert forall|j: int| 0 <= j < file.len() implies has_key(m, (#[trigger] file[j]).key) by {
                let n = choose|n: int| 0 <= n < inner.len() && (#[trigger] inner[n]).key == file[j].key;
                assert(m[n + 1] == inner[n]);
            }
            assert forall|i: int| 0 <= i < fresh.len() implies has_key(m, (#[trigger] fresh[i]).key) by {
                if i > 0 {
                    assert(rest[i - 1] == fresh[i]);
                    let n = choose|n: int| 0 <= n < inner.len() && (#[trigger] inner[n]).key == rest[i - 1].key;
                    assert(m[n + 1] == inner[n]);
                }
            }
        },
    }
}

/// Every key that is offered is written, unless it is the key `last`.
pub proof fn lemma_survivors_has_keys(last: Option<Seq<u8>>, s: Seq<Record>)
    ensures
        forall|i: int| 0 <= i < s.len() ==> last == Some((#[trigger] s[i]).key) || has_key(survivors_after(last, s), s[i].key),
    decreases s.len(),
{
    if s.len() > 0 {
        let x = s[0];
        let rest = s.drop_first();
        let out = survivors_after(last, s);
        if accepts(last, x.key) {
            let inner = survivors_after(Some(x.key), rest);
            lemma_survivors_has_keys(Some(x.key), rest);
            assert(out[0] == x);
            assert forall|i: int| 0 <= i < s.len() implies has_key(out, (#[trigger] s[i]).key) by {
                if i > 0 {
                    assert(rest[i - 1] == s[i]);
                    if rest[i - 1].key != x.key {
                        let n = choose|n: int| 0 <= n < inner.len() && (#[trigger] inner[n]).key == rest[i - 1].key;
                        assert(out[n + 1] == inner[n]);
                    }
                }
            }
        } else {
            lemma_survivors_has_keys(last, rest);
            assert forall|i: int| 0 <= i < s.len() implies last == Some((#[trigger] s[i]).key) || has_key(out, s[i].key) by {
                if i > 0 {
                    assert(rest[i - 1] == s[i]);
                }
            }
        }
    }
}

proof fn lemma_absorb(last: Option<Seq<u8>>, fresh: Seq<Record>, file: Seq<Record>)
    requires
        sorted(fresh),
        strictly_sorted(file),
        strictly_below(last, file),
        forall|i: int| 0 <= i < fresh.len() ==> last == Some((#[trigger] fresh[i]).key) || has_key(file, fresh[i].key),
    ensures
        survivors_after(last, merge_order(fresh, file)) == file,
    decreases fresh.len() + file.len(),
{
    let m = merge_order(fresh, file);
    match turn_for(head_key(fresh), head_key(file)) {
        Turn::Done => {
            assert(survivors_after(last, m) =~= file);
        },
        Turn::File => {
            let x = file[0];
            let rest = file.drop_first();
            let inner = merge_order(fresh, rest);
            lemma_strict_tail(file);
            if fresh.len() > 0 {
                lemma_sorted_tail(fresh);
            }
            assert(accepts(last, x.key));
            assert forall|i: int| 0 <= i < fresh.len() implies Some(x.key) == Some((#[trigger] fresh[i]).key) || has_key(rest, fresh[i].key) by {
                lemma_lex_le_trans(x.key, fresh[0].key, fresh[i].key);
                if last == Some(fresh[i].key) {
                    lemma_lex_le_antisym(x.key, fresh[i].key);
                } else {
                    let n = choose|n: int| 0 <= n < file.len() && (#[trigger] file[n]).key == fresh[i].key;
                    if n > 0 {
                        assert(rest[n - 1] == file[n]);
                    }
                }
            }
            lemma_absorb(Some(x.key), fresh, rest);
            assert(m.drop_first() =~= inner);
            assert(seq![x] + rest =~= file);
        },
        Turn::Fresh => {
            let x = fresh[0];
            let rest = fresh.drop_first();
            let inner = merge_order(rest, file);
            lemma_sorted_tail(fresh);
            if has_key(file, x.key) {
                let n = choose|n: int| 0 <= n < file.len() && (#[trigger] file[n]).key == x.key;
                lemma_strict_tail(file);
                assert(lex_le(file[0].key, file[n].key));
            }
            assert(last == Some(x.key));
            assert forall|i: int| 0 <= i < rest.len() implies last == Some((#[trigger] rest[i]).key) || has_key(file, rest[i].key) by {
                assert(rest[i] == fresh[i + 1]);
            }
            lemma_absorb(last, rest, file);
            assert(m.drop_first() =~= inner);
        },
    }
}

/// Convergence: a second run over the same fresh records, merged with the
/// output of the first run, writes that output again.
pub proof fn lemma_remerge(fresh: Seq<Record>, file: Seq<Record>)
    requires
        sorted(fresh),
        sorted(file),
    ensures
        merged(fresh, merged(fresh, file)) == merged(fresh, file),
{
    let m = merge_order(fresh, file);
    let out = merged(fresh, file);
    lemma_merged_sorted(fresh, file);
    lemma_merge_order_has_keys(fresh, file);
    lemma_survivors_has_keys(None, m);
    assert forall|i: int| 0 <= i < fresh.len() implies has_key(out, (#[trigger] fresh[i]).key) by {
        let n = choose|n: int| 0 <= n < m.len() && (#[trigger] m[n]).key == fresh[i].key;
        assert(has_key(out, m[n].key));
    }
    lemma_absorb(None, fresh, out);
}

proof fn lemma_export_kept_after(last: Option<Seq<u8>>, fresh: Seq<Record>, file: Seq<Record>)
    requires
        strictly_sorted(file),
        strictly_below(last, file),
    ensures
        forall|j: int| 0 <= j < file.len() ==> survivors_after(last, merge_order(fresh, file)).contains(#[trigger] file[j]),
    decreases fresh.len() + file.len(),
{
    let m = merge_order(fresh, file);
    let out = survivors_after(last, m);
    match turn_for(head_key(fresh), head_key(file)) {
        Turn::Done => {},
        Turn::File => {
            let x = file[0];
            let rest = file.drop_first();
            let inner = survivors_after(Some(x.key), merge_order(fresh, rest));
            lemma_strict_tail(file);
            lemma_export_kept_after(Some(x.key), fresh, rest);
            assert(m.drop_first() =~= merge_order(fresh, rest));
            assert(accepts(last, x.key));
            assert(out == seq![x] + inner);
            assert forall|j: int| 0 <= j < file.len() implies out.contains(#[trigger] file[j]) by {
                if j == 0 {
                    assert(out[0] == file[0]);
                } else {
                    assert(rest[j - 1] == file[j]);
                    let n = choose|n: int| 0 <= n < inner.len() && inner[n] == rest[j - 1];
                    assert(out[n + 1] == inner[n]);
                }
            }
        },
        Turn::Fresh => {
            let x = fresh[0];
            let rest = fresh.drop_first();
            assert(m.drop_first() =~= merge_order(rest, file));
            if file.len() > 0 {
                lemma_strict_tail(file);
                lemma_lex_le_total(x.key, file[0].key);
                assert forall|j: int| 0 <= j < file.len() implies lex_lt(x.key, (#[trigger] file[j]).key) by {
                    lemma_lex_le_trans(x.key, file[0].key, file[j].key);
                }
            }
            if accepts(last, x.key) {
                let inner = survivors_after(Some(x.key), merge_order(rest, file));
                lemma_export_kept_after(Some(x.key), rest, file);
                assert(out == seq![x] + inner);
                assert forall|j: int| 0 <= j < file.len() implies out.contains(#[trigger] file[j]) by {
                    let n = choose|n: int| 0 <= n < inner.len() && inner[n] == file[j];
                    assert(out[n + 1] == inner[n]);
                }
            } else {
                lemma_export_kept_after(last, rest, file);
            }
        },
    }
}

/// Tie precedence: every record of an earlier export that holds each key
/// once is in the output as it stands in that export, whatever the fresh
/// source delivers under the same key.
pub proof fn lemma_export_records_kept(fresh: Seq<Record>, file: Seq<Record>)
    requires
        strictly_sorted(file),
    ensures
        forall|j: int| 0 <= j < file.len() ==> merged(fresh, file).contains(#[trigger] file[j]),
{
    lemma_export_kept_after(None, fresh, file);
}

/// Every record that reaches the sink is a record of one of the sources.
pub proof fn lemma_merge_order_from_sources(fresh: Seq<Record>, file: Seq<Record>)
    ensures
        forall|n: int| 0 <= n < merge_order(fresh, file).len() ==> fresh.contains(#[trigger] merge_order(fresh, file)[n]) || file.contains(merge_order(fresh, file)[n]),
    decreases fresh.len() + file.len(),
{
    let m = merge_order(fresh, file);
    match turn_for(head_key(fresh), head_key(file)) {
        Turn::Done => {},
        Turn::File => {
            let rest = file.drop_first();
            let inner = merge_order(fresh, rest);
            lemma_merge_order_from_sources(fresh, rest);
            assert forall|n: int| 0 <= n < m.len() implies fresh.contains(#[trigger] m[n]) || file.contains(m[n]) by {
                if n == 0 {
                    assert(m[0] == file[0]);
                } else {
                    assert(m[n] == inner[n - 1]);
                    if rest.contains(inner[n - 1]) {
                        let k = choose|k: int| 0 <= k < rest.len() && rest[k] == inner[n - 1];
                        assert(file[k + 1] == rest[k]);
                    }
                }
            }
        },
        Turn::Fresh => {
            let rest = fresh.drop_first();
            let inner = merge_order(rest, file);
            lemma_merge_order_from_sources(rest, file);
            assert forall|n: int| 0 <= n < m.len() implies fresh.contains(#[trigger] m[n]) || file.contains(m[n]) by {
                if n == 0 {
                    assert(m[0] == fresh[0]);
                } else {
                    assert(m[n] == inner[n - 1]);
                    if rest.contains(inner[n - 1]) {
                        let k = choose|k: int| 0 <= k < rest.len() && rest[k] == inner[n - 1];
                        assert(fresh[k + 1] == rest[k]);
                    }
                }
            }
        },
    }
}

/// Every record that is written is one of the records that were offered.
pub proof fn lemma_survivors_from_offered(last: Option<Seq<u8>>, s: Seq<Record>)
    ensures
        forall|n: int| 0 <= n < survivors_after(last, s).len() ==> s.contains(#[trigger] survivors_after(last, s)[n]),
    decreases s.len(),
{
    if s.len() > 0 {
        let rest = s.drop_first();
        let out = survivors_after(last, s);
        let inner = if accepts(last, s[0].key) {
            survivors_after(Some(s[0].key), rest)
        } else {
            survivors_after(last, rest)
        };
        if accepts(last, s[0].key) {
            lemma_survivors_from_offered(Some(s[0].key), rest);
        } else {
            lemma_survivors_from_offered(last, rest);
        }
        assert forall|n: int| 0 <= n < out.len() implies s.contains(#[trigger] out[n]) by {
            if accepts(last, s[0].key) && n == 0 {
                assert(out[0] == s[0]);
            } else {
                let r = out[n];
                assert(inner.contains(r)) by {
                    if accepts(last, s[0].key) {
                        assert(out[n] == inner[n - 1]);
                    }
                }
                let k = choose|k: int| 0 <= k < rest.len() && rest[k] == r;
                assert(s[k + 1] == rest[k]);
            }
        }
    }
}

/// Nothing is made up: every record of the output is a record of one of
/// the sources.
pub proof fn lemma_merged_from_sources(fresh: Seq<Record>, file: Seq<Record>)
    ensures
        forall|n: int| 0 <= n < merged(fresh, file).len() ==> fresh.contains(#[trigger] merged(fresh, file)[n]) || file.contains(merged(fresh, file)[n]),
{
    let m = merge_order(fresh, file);
    let out = merged(fresh, file);
    lemma_merge_order_from_sources(fresh, file);
    lemma_survivors_from_offered(None, m);
    assert forall|n: int| 0 <= n < out.len() implies fresh.contains(#[trigger] out[n]) || file.contains(out[n]) by {
        let k = choose|k: int| 0 <= k < m.len() && m[k] == out[n];
        assert(fresh.contains(m[k]) || file.contains(m[k]));
    }
}

} // verus!
