//! Orders used for sorted, duplicate-free output: the lexicographic order of character
//! sequences (the order of `String`) and its total-order laws.
use crate::fonts::{FontName, NameView, copy_name, kind_rank, kind_rank_of, name_views, strings};
use crate::overrides::{seq_less, seq_less_of};
use crate::text::chars_of;
use vstd::prelude::*;

verus! {

pub proof fn lemma_seq_less_irreflexive(a: Seq<char>)
    ensures
        !seq_less(a, a),
    decreases a.len(),
{
    if a.len() > 0 {
        lemma_seq_less_irreflexive(a.drop_first());
    }
}

pub proof fn lemma_seq_less_transitive(a: Seq<char>, b: Seq<char>, c: Seq<char>)
    requires
        seq_less(a, b),
        seq_less(b, c),
    ensures
        seq_less(a, c),
    decreases a.len(),
{
    if a.len() > 0 && b.len() > 0 && c.len() > 0 && a[0] == b[0] && b[0] == c[0] {
        lemma_seq_less_transitive(a.drop_first(), b.drop_first(), c.drop_first());
    }
}

pub proof fn lemma_seq_less_total(a: Seq<char>, b: Seq<char>)
    ensures
        a == b || seq_less(a, b) || seq_less(b, a),
    decreases a.len(),
{
    if a.len() > 0 && b.len() > 0 && a[0] == b[0] {
        lemma_seq_less_total(a.drop_first(), b.drop_first());
        if a.drop_first() == b.drop_first() {
            assert(a =~= seq![a[0]] + a.drop_first());
            assert(b =~= seq![b[0]] + b.drop_first());
        }
    } else if a.len() == 0 && b.len() == 0 {
        assert(a =~= b);
    }
}

/// Strictly increasing in the lexicographic order.
pub open spec fn strictly_sorted(s: Seq<Seq<char>>) -> bool {
    forall|i: int, j: int| 0 <= i < j < s.len() ==> seq_less(s[i], s[j])
}

pub fn string_less(a: &String, b: &String) -> (r: bool)
    ensures
        r == seq_less(a@, b@),
{
    let av = chars_of(a.as_str());
    let bv = chars_of(b.as_str());
    seq_less_of(&av, &bv)
}

/// Sorted, duplicate-free copy of a list of strings.
pub fn sort_unique_strings(v: &Vec<String>) -> (r: Vec<String>)
    ensures
        strictly_sorted(strings(r@)),
        forall|x: Seq<char>| strings(r@).contains(x) <==> strings(v@).contains(x),
{
    let mut out: Vec<String> = Vec::new();
    let mut i: usize = 0;
    while i < v.len()
        invariant
            i <= v.len(),
            strictly_sorted(strings(out@)),
            forall|x: Seq<char>|
                strings(out@).contains(x) <==> strings(v@).take(i as int).contains(x),
        decreases v.len() - i,
    {
        let x = &v[i];
        let ghost o = strings(out@);
        let mut j: usize = 0;
        while j < out.len() && string_less(&out[j], x)
            invariant
                j <= out.len(),
                o == strings(out@),
                forall|k: int| 0 <= k < j ==> seq_less(o[k], x@),
            decreases out.len() - j,
        {
            j = j + 1;
        }
        proof {
            assert(strings(v@).take(i + 1) =~= strings(v@).take(i as int).push(x@));
        }
        if j < out.len() && out[j] == *x {
            proof {
                assert forall|y: Seq<char>| o.contains(y) <==> strings(v@).take(i + 1).contains(
                    y,
                ) by {
                    if y == x@ {
                        assert(o[j as int] == x@);
                    }
                    if strings(v@).take(i + 1).contains(y) && y != x@ {
                        let k = choose|k: int|
                            0 <= k < i + 1 && #[trigger] strings(v@).take(i + 1)[k] == y;
                        assert(strings(v@).take(i as int)[k] == y);
                    }
                }
            }
        } else {
            proof {
                if j < out.len() {
                    lemma_seq_less_total(o[j as int], x@);
                }
                assert forall|k: int| j <= k < o.len() implies seq_less(x@, o[k]) by {
                    if k > j {
                        lemma_seq_less_transitive(x@, o[j as int], o[k]);
                    }
                }
            }
            out.insert(j, x.clone());
            proof {
                let n = strings(out@);
                assert(n =~= o.insert(j as int, x@));
                assert forall|a: int, b: int| 0 <= a < b < n.len() implies seq_less(n[a], n[b]) by {
                    if b < j {
                    } else if a < j && b == j {
                    } else if a < j && b > j {
                        lemma_seq_less_transitive(n[a], x@, n[b]);
                    } else if a == j {
                    } else {
                    }
                }
                assert forall|y: Seq<char>| n.contains(y) <==> strings(v@).take(i + 1).contains(
                    y,
                ) by {
                    let t1 = strings(v@).take(i + 1);
                    let t0 = strings(v@).take(i as int);
                    if n.contains(y) {
                        if y == x@ {
                            assert(t1[i as int] == y);
                        } else {
                            let k = choose|k: int| 0 <= k < n.len() && #[trigger] n[k] == y;
                            let k2 = if k < j { k } else { k - 1 };
                            assert(o[k2] == y);
                            assert(o.contains(y));
                            assert(t0.contains(y));
                            let m = choose|m: int| 0 <= m < t0.len() && #[trigger] t0[m] == y;
                            assert(t1[m] == y);
                        }
                    }
                    if t1.contains(y) {
                        if y == x@ {
                            assert(n[j as int] == y);
                        } else {
                            let k = choose|k: int| 0 <= k < t1.len() && #[trigger] t1[k] == y;
                            assert(k < i);
                            assert(t0[k] == y);
                            assert(t0.contains(y));
                            assert(o.contains(y));
                            let m = choose|m: int| 0 <= m < o.len() && #[trigger] o[m] == y;
                            if m < j {
                                assert(n[m] == y);
                            } else {
                                assert(n[m + 1] == y);
                            }
                        }
                    }
                }
            }
        }
        i = i + 1;
    }
    assert(strings(v@).take(i as int) =~= strings(v@));
    out
}

pub open spec fn opt_less(a: Option<u16>, b: Option<u16>) -> bool {
    match (a, b) {
        (None, Some(_)) => true,
        (Some(x), Some(y)) => x < y,
        _ => false,
    }
}

/// Order of name records: by name, then kind, then name ID (absent first).
pub open spec fn record_less(a: NameView, b: NameView) -> bool {
    seq_less(a.name, b.name) || (a.name == b.name && (kind_rank(a.kind) < kind_rank(b.kind) || (
    a.kind == b.kind && opt_less(a.name_id, b.name_id))))
}

pub proof fn lemma_record_less_transitive(a: NameView, b: NameView, c: NameView)
    requires
        record_less(a, b),
        record_less(b, c),
    ensures
        record_less(a, c),
{
    if seq_less(a.name, b.name) && seq_less(b.name, c.name) {
        lemma_seq_less_transitive(a.name, b.name, c.name);
    }
}

pub proof fn lemma_record_less_total(a: NameView, b: NameView)
    ensures
        a == b || record_less(a, b) || record_less(b, a),
{
    lemma_seq_less_total(a.name, b.name);
    if a.name == b.name && a.kind == b.kind && a.name_id == b.name_id {
        assert(a == b);
    }
    if a.name == b.name && kind_rank(a.kind) == kind_rank(b.kind) {
        assert(a.kind == b.kind);
    }
}

pub fn record_less_of(a: &FontName, b: &FontName) -> (r: bool)
    ensures
        r == record_less(a@, b@),
{
    if string_less(&a.name, &b.name) {
        return true;
    }
    if !(a.name == b.name) {
        return false;
    }
    let ka = kind_rank_of(a.kind);
    let kb = kind_rank_of(b.kind);
    if ka != kb {
        return ka < kb;
    }
    match (a.name_id, b.name_id) {
        (None, Some(_)) => true,
        (Some(x), Some(y)) => x < y,
        _ => false,
    }
}

pub open spec fn records_sorted(s: Seq<NameView>) -> bool {
    forall|i: int, j: int| 0 <= i < j < s.len() ==> record_less(s[i], s[j])
}

pub fn record_eq(a: &FontName, b: &FontName) -> (r: bool)
    ensures
        r == (a@ == b@),
{
    a.name == b.name && a.kind == b.kind && a.name_id == b.name_id
}

/// Sorted, duplicate-free copy of a list of name records.
pub fn sort_unique_records(v: &Vec<FontName>) -> (r: Vec<FontName>)
    ensures
        records_sorted(name_views(r@)),
        forall|x: NameView| name_views(r@).contains(x) <==> name_views(v@).contains(x),
{
    let mut out: Vec<FontName> = Vec::new();
    let mut i: usize = 0;
    while i < v.len()
        invariant
            i <= v.len(),
            records_sorted(name_views(out@)),
            forall|x: NameView|
                name_views(out@).contains(x) <==> name_views(v@).take(i as int).contains(x),
        decreases v.len() - i,
    {
        let x = &v[i];
        let ghost o = name_views(out@);
        let mut j: usize = 0;
        while j < out.len() && record_less_of(&out[j], x)
            invariant
                j <= out.len(),
                o == name_views(out@),
                forall|k: int| 0 <= k < j ==> record_less(o[k], x@),
            decreases out.len() - j,
        {
            j = j + 1;
        }
        proof {
            assert(name_views(v@).take(i + 1) =~= name_views(v@).take(i as int).push(x@));
        }
        if j < out.len() && record_eq(&out[j], x) {
            proof {
                assert forall|y: NameView| o.contains(y) <==> name_views(v@).take(i + 1).contains(
                    y,
                ) by {
                    if y == x@ {
                        assert(o[j as int] == x@);
                    }
                    if name_views(v@).take(i + 1).contains(y) && y != x@ {
                        let k = choose|k: int|
                            0 <= k < i + 1 && #[trigger] name_views(v@).take(i + 1)[k] == y;
                        assert(name_views(v@).take(i as int)[k] == y);
                    }
                }
            }
        } else {
            proof {
                if j < out.len() {
                    lemma_record_less_total(o[j as int], x@);
                }
                assert forall|k: int| j <= k < o.len() implies record_less(x@, o[k]) by {
                    if k > j {
                        lemma_record_less_transitive(x@, o[j as int], o[k]);
                    }
                }
            }
            out.insert(j, copy_name(x));
            proof {
                let n = name_views(out@);
                assert(n =~= o.insert(j as int, x@));
                assert forall|a: int, b: int| 0 <= a < b < n.len() implies record_less(
                    n[a],
                    n[b],
                ) by {
                    if a < j && b > j {
                        lemma_record_less_transitive(n[a], x@, n[b]);
                    }
                }
                assert forall|y: NameView| n.contains(y) <==> name_views(v@).take(i + 1).contains(
                    y,
                ) by {
                    let t1 = name_views(v@).take(i + 1);
                    let t0 = name_views(v@).take(i as int);
                    if n.contains(y) {
                        if y == x@ {
                            assert(t1[i as int] == y);
                        } else {
                            let k = choose|k: int| 0 <= k < n.len() && #[trigger] n[k] == y;
                            let k2 = if k < j { k } else { k - 1 };
                            assert(o[k2] == y);
                            assert(o.contains(y));
                            assert(t0.contains(y));
                            let m = choose|m: int| 0 <= m < t0.len() && #[trigger] t0[m] == y;
                            assert(t1[m] == y);
                        }
                    }
                    if t1.contains(y) {
                        if y == x@ {
                            assert(n[j as int] == y);
                        } else {
                            let k = choose|k: int| 0 <= k < t1.len() && #[trigger] t1[k] == y;
                            assert(k < i);
                            assert(t0[k] == y);
                            assert(t0.contains(y));
                            assert(o.contains(y));
                            let m = choose|m: int| 0 <= m < o.len() && #[trigger] o[m] == y;
                            if m < j {
                                assert(n[m] == y);
                            } else {
                                assert(n[m + 1] == y);
                            }
                        }
                    }
                }
            }
        }
        i = i + 1;
    }
    assert(name_views(v@).take(i as int) =~= name_views(v@));
    out
}

} // verus!
