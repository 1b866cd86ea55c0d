//! The mathematical model of search-path values.
//!
//! A search-path value is a string; its entries are the runs of characters
//! between `':'` separators. Each entry is compared under its *identity*:
//! the entry with every trailing `'/'` removed. The executable functions in
//! `path_utils` are specified against the definitions here.

use vstd::prelude::*;

verus! {

/// A segment's textual normal form: the segment with every trailing `'/'`
/// removed.
pub open spec fn trim_slashes(s: Seq<char>) -> Seq<char>
    decreases s.len(),
{
    if s.len() > 0 && s.last() == '/' {
        trim_slashes(s.drop_last())
    } else {
        s
    }
}

/// The identity under which two segments count as the same directory.
pub open spec fn ident(s: Seq<char>) -> Seq<char> {
    trim_slashes(s)
}

/// The entries of a search-path value, in order. An empty string has one
/// (empty) entry; a separator at either end or doubled in the middle
/// produces empty entries.
pub open spec fn split_path(s: Seq<char>) -> Seq<Seq<char>>
    decreases s.len(),
{
    if s.len() == 0 {
        seq![Seq::<char>::empty()]
    } else if s[0] == ':' {
        seq![Seq::<char>::empty()] + split_path(s.skip(1))
    } else {
        let rest = split_path(s.skip(1));
        seq![seq![s[0]] + rest[0]] + rest.skip(1)
    }
}

/// Joining entries back into one search-path value, `':'` between entries.
pub open spec fn join_path(segs: Seq<Seq<char>>) -> Seq<char>
    decreases segs.len(),
{
    if segs.len() == 0 {
        Seq::empty()
    } else if segs.len() == 1 {
        segs[0]
    } else {
        segs[0] + seq![':'] + join_path(segs.skip(1))
    }
}

/// Whether the search-path value `p` holds an entry with the same identity
/// as `d`.
pub open spec fn path_has_dir(p: Seq<char>, d: Seq<char>) -> bool {
    exists|i: int|
        0 <= i < split_path(p).len() && ident(split_path(p)[i]) == ident(d)
}

/// The entries kept by deduplication: the first occurrence of each identity
/// not yet in `seen`, in order; entries whose identity is empty are dropped.
pub open spec fn dedup_segs(segs: Seq<Seq<char>>, seen: Set<Seq<char>>) -> Seq<Seq<char>>
    decreases segs.len(),
{
    if segs.len() == 0 {
        Seq::empty()
    } else {
        let id = ident(segs[0]);
        if id.len() == 0 || seen.contains(id) {
            dedup_segs(segs.skip(1), seen)
        } else {
            seq![segs[0]] + dedup_segs(segs.skip(1), seen.insert(id))
        }
    }
}

/// A search-path value with only the first entry of each identity kept.
pub open spec fn dedup_path(p: Seq<char>) -> Seq<char> {
    join_path(dedup_segs(split_path(p), Set::empty()))
}

/// The value of inserting `d` into `p`: unchanged when an entry with `d`'s
/// identity is already there, else `d` prepended ahead of a separator.
pub open spec fn add_if_missing(p: Seq<char>, d: Seq<char>) -> Seq<char> {
    if path_has_dir(p, d) {
        p
    } else if p.len() == 0 {
        d
    } else {
        d + seq![':'] + p
    }
}

pub proof fn lemma_split_len(s: Seq<char>)
    ensures
        split_path(s).len() >= 1,
    decreases s.len(),
{
    if s.len() == 0 {
    } else {
        lemma_split_len(s.skip(1));
    }
}

pub proof fn lemma_split_no_colon(s: Seq<char>)
    ensures
        forall|i: int| 0 <= i < split_path(s).len() ==> !(#[trigger] split_path(s)[i]).contains(':'),
    decreases s.len(),
{
    if s.len() == 0 {
        assert(!Seq::<char>::empty().contains(':'));
    } else if s[0] == ':' {
        lemma_split_no_colon(s.skip(1));
        assert(!Seq::<char>::empty().contains(':'));
        assert forall|i: int| 0 <= i < split_path(s).len() implies !(#[trigger] split_path(s)[i]).contains(':') by {
            if i > 0 {
                assert(split_path(s)[i] == split_path(s.skip(1))[i - 1]);
            }
        }
    } else {
        lemma_split_no_colon(s.skip(1));
        lemma_split_len(s.skip(1));
        let rest = split_path(s.skip(1));
        let first = seq![s[0]] + rest[0];
        assert(!rest[0].contains(':'));
        assert forall|k: int| 0 <= k < first.len() implies first[k] != ':' by {
            if k == 0 {
            } else {
                assert(first[k] == rest[0][k - 1]);
                assert(!rest[0].contains(':'));
            }
        }
        assert(!first.contains(':'));
        assert forall|i: int| 0 <= i < split_path(s).len() implies !(#[trigger] split_path(s)[i]).contains(':') by {
            if i > 0 {
                assert(split_path(s)[i] == rest.skip(1)[i - 1]);
                assert(rest.skip(1)[i - 1] == rest[i]);
            }
        }
    }
}

/// A string without a separator splits into itself alone.
pub proof fn lemma_split_whole(s: Seq<char>)
    requires
        !s.contains(':'),
    ensures
        split_path(s) == seq![s],
    decreases s.len(),
{
    if s.len() == 0 {
        assert(split_path(s) =~~= seq![s]);
    } else {
        assert(s[0] != ':') by {
            assert(s.contains(':') <==> exists|i: int| 0 <= i < s.len() && s[i] == ':');
        }
        assert(!s.skip(1).contains(':')) by {
            assert forall|i: int| 0 <= i < s.skip(1).len() implies s.skip(1)[i] != ':' by {
                assert(s.skip(1)[i] == s[i + 1]);
            }
        }
        lemma_split_whole(s.skip(1));
        assert(split_path(s) =~~= seq![s]);
    }
}

/// Splitting `a:b` with `a` separator-free yields `a` ahead of the entries
/// of `b`.
pub proof fn lemma_split_prefix(a: Seq<char>, b: Seq<char>)
    requires
        !a.contains(':'),
    ensures
        split_path(a + seq![':'] + b) == seq![a] + split_path(b),
    decreases a.len(),
{
    let s = a + seq![':'] + b;
    if a.len() == 0 {
        assert(s[0] == ':');
        assert(s.skip(1) =~= b);
        assert(split_path(s) =~~= seq![a] + split_path(b));
    } else {
        assert(s[0] == a[0]);
        assert(a[0] != ':') by {
            assert(a.contains(':') <==> exists|i: int| 0 <= i < a.len() && a[i] == ':');
        }
        assert(!a.skip(1).contains(':')) by {
            assert forall|i: int| 0 <= i < a.skip(1).len() implies a.skip(1)[i] != ':' by {
                assert(a.skip(1)[i] == a[i + 1]);
            }
        }
        lemma_split_prefix(a.skip(1), b);
        assert(s.skip(1) =~= a.skip(1) + seq![':'] + b);
        let rest = split_path(s.skip(1));
        assert(rest == seq![a.skip(1)] + split_path(b));
        lemma_split_len(b);
        assert(rest[0] == a.skip(1));
        assert(seq![s[0]] + rest[0] =~= a);
        assert(rest.skip(1) =~= split_path(b));
        assert(split_path(s) =~~= seq![a] + split_path(b));
    }
}

/// Appending one more entry extends the joined value by a separator and the
/// entry.
pub proof fn lemma_join_push(ss: Seq<Seq<char>>, t: Seq<char>)
    requires
        ss.len() >= 1,
    ensures
        join_path(ss.push(t)) == join_path(ss) + seq![':'] + t,
    decreases ss.len(),
{
    if ss.len() == 1 {
        assert(ss.push(t).len() == 2);
        assert(ss.push(t)[0] == ss[0]);
        assert(ss.push(t).skip(1) =~~= seq![t]);
        assert(join_path(seq![t]) == t);
        assert(join_path(ss.push(t)) == ss[0] + seq![':'] + t);
        assert(join_path(ss) == ss[0]);
    } else {
        lemma_join_push(ss.skip(1), t);
        assert(ss.push(t).skip(1) =~~= ss.skip(1).push(t));
        assert(ss.push(t)[0] == ss[0]);
        assert(join_path(ss.push(t)) == ss[0] + seq![':'] + join_path(ss.skip(1).push(t)));
        assert(ss[0] + seq![':'] + (join_path(ss.skip(1)) + seq![':'] + t) =~= (ss[0] + seq![':']
            + join_path(ss.skip(1))) + seq![':'] + t);
    }
}

/// Splitting undoes joining, for at least one separator-free entry.
pub proof fn lemma_split_join(ss: Seq<Seq<char>>)
    requires
        ss.len() >= 1,
        forall|i: int| 0 <= i < ss.len() ==> !(#[trigger] ss[i]).contains(':'),
    ensures
        split_path(join_path(ss)) == ss,
    decreases ss.len(),
{
    if ss.len() == 1 {
        lemma_split_whole(ss[0]);
        assert(split_path(join_path(ss)) =~~= ss);
    } else {
        assert(forall|i: int|
            0 <= i < ss.skip(1).len() ==> !(#[trigger] ss.skip(1)[i]).contains(':')) by {
            assert(forall|i: int| 0 <= i < ss.skip(1).len() ==> ss.skip(1)[i] == ss[i + 1]);
        }
        lemma_split_join(ss.skip(1));
        lemma_split_prefix(ss[0], join_path(ss.skip(1)));
        assert(split_path(join_path(ss)) == seq![ss[0]] + split_path(join_path(ss.skip(1))));
        assert(seq![ss[0]] + ss.skip(1) =~~= ss);
    }
}

/// Trimming never lengthens a segment.
pub proof fn lemma_trim_len_le(s: Seq<char>)
    ensures
        trim_slashes(s).len() <= s.len(),
    decreases s.len(),
{
    if s.len() > 0 && s.last() == '/' {
        lemma_trim_len_le(s.drop_last());
    }
}

/// Every kept entry is one of the input entries.
pub proof fn lemma_dedup_segs_membership(segs: Seq<Seq<char>>, seen: Set<Seq<char>>)
    ensures
        forall|j: int|
            0 <= j < dedup_segs(segs, seen).len() ==> exists|i: int|
                0 <= i < segs.len() && segs[i] == #[trigger] dedup_segs(segs, seen)[j],
    decreases segs.len(),
{
    if segs.len() == 0 {
    } else {
        let id = ident(segs[0]);
        let d = dedup_segs(segs, seen);
        if id.len() == 0 || seen.contains(id) {
            lemma_dedup_segs_membership(segs.skip(1), seen);
            assert forall|j: int| 0 <= j < d.len() implies exists|i: int|
                0 <= i < segs.len() && segs[i] == #[trigger] d[j] by {
                let r = dedup_segs(segs.skip(1), seen);
                assert(d[j] == r[j]);
                let i = choose|i: int| 0 <= i < segs.skip(1).len() && segs.skip(1)[i] == r[j];
                assert(segs[i + 1] == d[j]);
            }
        } else {
            lemma_dedup_segs_membership(segs.skip(1), seen.insert(id));
            assert forall|j: int| 0 <= j < d.len() implies exists|i: int|
                0 <= i < segs.len() && segs[i] == #[trigger] d[j] by {
                if j == 0 {
                    assert(segs[0] == d[0]);
                } else {
                    let r = dedup_segs(segs.skip(1), seen.insert(id));
                    assert(d[j] == r[j - 1]);
                    let i = choose|i: int|
                        0 <= i < segs.skip(1).len() && segs.skip(1)[i] == r[j - 1];
                    assert(segs[i + 1] == d[j]);
                }
            }
        }
    }
}

/// Kept entries have nonempty identities outside `seen`, pairwise distinct.
pub proof fn lemma_dedup_segs_distinct(segs: Seq<Seq<char>>, seen: Set<Seq<char>>)
    ensures
        forall|j: int|
            0 <= j < dedup_segs(segs, seen).len() ==> ident(
                #[trigger] dedup_segs(segs, seen)[j],
            ).len() > 0 && !seen.contains(ident(dedup_segs(segs, seen)[j])),
        forall|j: int, k: int|
            0 <= j < k < dedup_segs(segs, seen).len() ==> ident(
                #[trigger] dedup_segs(segs, seen)[j],
            ) != ident(#[trigger] dedup_segs(segs, seen)[k]),
    decreases segs.len(),
{
    if segs.len() == 0 {
    } else {
        let id = ident(segs[0]);
        let d = dedup_segs(segs, seen);
        if id.len() == 0 || seen.contains(id) {
            lemma_dedup_segs_distinct(segs.skip(1), seen);
            let r = dedup_segs(segs.skip(1), seen);
            assert(d == r);
            assert forall|j: int| 0 <= j < d.len() implies ident(#[trigger] d[j]).len() > 0
                && !seen.contains(ident(d[j])) by {
                assert(d[j] == r[j]);
            }
            assert forall|j: int, k: int| 0 <= j < k < d.len() implies ident(#[trigger] d[j])
                != ident(#[trigger] d[k]) by {
                assert(d[j] == r[j]);
                assert(d[k] == r[k]);
            }
        } else {
            lemma_dedup_segs_distinct(segs.skip(1), seen.insert(id));
            let r = dedup_segs(segs.skip(1), seen.insert(id));
            assert forall|j: int| 0 <= j < d.len() implies ident(#[trigger] d[j]).len() > 0
                && !seen.contains(ident(d[j])) by {
                if j > 0 {
                    assert(d[j] == r[j - 1]);
                    assert(!seen.insert(id).contains(ident(r[j - 1])));
                }
            }
            assert forall|j: int, k: int| 0 <= j < k < d.len() implies ident(#[trigger] d[j])
                != ident(#[trigger] d[k]) by {
                assert(d[k] == r[k - 1]);
                assert(!seen.insert(id).contains(ident(r[k - 1])));
                if j > 0 {
                    assert(d[j] == r[j - 1]);
                }
            }
        }
    }
}

/// Deduplication leaves already deduplicated entries unchanged.
pub proof fn lemma_dedup_segs_stable(segs: Seq<Seq<char>>, seen: Set<Seq<char>>)
    requires
        forall|i: int|
            0 <= i < segs.len() ==> ident(#[trigger] segs[i]).len() > 0 && !seen.contains(
                ident(segs[i]),
            ),
        forall|i: int, j: int| 0 <= i < j < segs.len() ==> ident(segs[i]) != ident(segs[j]),
    ensures
        dedup_segs(segs, seen) == segs,
    decreases segs.len(),
{
    if segs.len() == 0 {
        assert(dedup_segs(segs, seen) =~~= segs);
    } else {
        let id = ident(segs[0]);
        assert(forall|i: int| 0 <= i < segs.skip(1).len() ==> segs.skip(1)[i] == segs[i + 1]);
        lemma_dedup_segs_stable(segs.skip(1), seen.insert(id));
        assert(seq![segs[0]] + segs.skip(1) =~~= segs);
    }
}

/// An identity outside `seen` occurs among the kept entries exactly when it
/// occurs among the input entries.
pub proof fn lemma_dedup_segs_same_idents(segs: Seq<Seq<char>>, seen: Set<Seq<char>>, id: Seq<char>)
    requires
        id.len() > 0,
        !seen.contains(id),
    ensures
        (exists|i: int| 0 <= i < segs.len() && ident(#[trigger] segs[i]) == id) <==> (exists|j: int|
            0 <= j < dedup_segs(segs, seen).len() && ident(#[trigger] dedup_segs(segs, seen)[j])
                == id),
    decreases segs.len(),
{
    if segs.len() == 0 {
    } else {
        let id0 = ident(segs[0]);
        let d = dedup_segs(segs, seen);
        assert(forall|i: int| 0 <= i < segs.skip(1).len() ==> segs.skip(1)[i] == segs[i + 1]);
        if id0.len() == 0 || seen.contains(id0) {
            assert(id0 != id);
            lemma_dedup_segs_same_idents(segs.skip(1), seen, id);
            let r = dedup_segs(segs.skip(1), seen);
            assert(d == r);
            if exists|i: int| 0 <= i < segs.len() && ident(#[trigger] segs[i]) == id {
                let i = choose|i: int| 0 <= i < segs.len() && ident(#[trigger] segs[i]) == id;
                assert(i > 0);
                assert(ident(segs.skip(1)[i - 1]) == id);
                let j = choose|j: int| 0 <= j < r.len() && ident(#[trigger] r[j]) == id;
                assert(ident(d[j]) == id);
            }
            if exists|j: int| 0 <= j < d.len() && ident(#[trigger] d[j]) == id {
                let j = choose|j: int| 0 <= j < d.len() && ident(#[trigger] d[j]) == id;
                assert(ident(r[j]) == id);
                let i = choose|i: int|
                    0 <= i < segs.skip(1).len() && ident(#[trigger] segs.skip(1)[i]) == id;
                assert(ident(segs[i + 1]) == id);
            }
        } else {
            if id0 == id {
                assert(ident(d[0]) == id);
                assert(ident(segs[0]) == id);
            } else {
                lemma_dedup_segs_same_idents(segs.skip(1), seen.insert(id0), id);
                let r = dedup_segs(segs.skip(1), seen.insert(id0));
                assert(forall|j: int| 0 <= j < r.len() ==> d[j + 1] == r[j]);
                if exists|i: int| 0 <= i < segs.len() && ident(#[trigger] segs[i]) == id {
                    let i = choose|i: int| 0 <= i < segs.len() && ident(#[trigger] segs[i]) == id;
                    assert(i > 0);
                    assert(ident(segs.skip(1)[i - 1]) == id);
                    let j = choose|j: int| 0 <= j < r.len() && ident(#[trigger] r[j]) == id;
                    assert(ident(d[j + 1]) == id);
                }
                if exists|j: int| 0 <= j < d.len() && ident(#[trigger] d[j]) == id {
                    let j = choose|j: int| 0 <= j < d.len() && ident(#[trigger] d[j]) == id;
                    assert(j > 0);
                    assert(ident(r[j - 1]) == id);
                    let i = choose|i: int|
                        0 <= i < segs.skip(1).len() && ident(#[trigger] segs.skip(1)[i]) == id;
                    assert(ident(segs[i + 1]) == id);
                }
            }
        }
    }
}

} // verus!
