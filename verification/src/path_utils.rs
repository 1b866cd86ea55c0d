//! Executable search-path operations, specified against `path_model`.

use crate::path_model::{
    add_if_missing, dedup_path, dedup_segs, ident, join_path, path_has_dir, split_path,
    trim_slashes,
};
use vstd::prelude::*;

verus! {

/// The views of a sequence of owned strings.
pub open spec fn seg_views(v: Seq<String>) -> Seq<Seq<char>> {
    Seq::new(v.len(), |i: int| v[i]@)
}

/// Normalizes a path segment for comparison: removes every trailing `'/'`.
pub fn normalize_path(path: &str) -> (r: String)
    ensures
        r@ == trim_slashes(path@),
{
    let len = path.unicode_len();
    let mut end = len;
    assert(path@.take(len as int) =~= path@);
    while end > 0 && path.get_char(end - 1) == '/'
        invariant
            end <= len,
            len == path@.len(),
            trim_slashes(path@) == trim_slashes(path@.take(end as int)),
        decreases end,
    {
        proof {
            let t = path@.take(end as int);
            assert(t.last() == path@[end - 1]);
            assert(t.drop_last() =~= path@.take(end - 1));
        }
        end = end - 1;
    }
    proof {
        let t = path@.take(end as int);
        if end > 0 {
            assert(t.last() == path@[end - 1]);
        }
        assert(trim_slashes(t) == t);
    }
    let r = path.substring_char(0, end).to_owned();
    assert(r@ =~= path@.take(end as int));
    r
}

/// The entries of a search-path value, in order, empty ones included.
pub fn split_on_sep(s: &str) -> (r: Vec<String>)
    ensures
        seg_views(r@) == split_path(s@),
{
    let len = s.unicode_len();
    let mut r: Vec<String> = Vec::new();
    let mut start: usize = 0;
    let mut i: usize = 0;
    assert(s@.skip(0) =~= s@);
    while i < len
        invariant
            start <= i <= len,
            len == s@.len(),
            split_path(s@) == seg_views(r@) + split_path(s@.skip(start as int)),
            forall|k: int| start <= k < i ==> s@[k] != ':',
        decreases len - i,
    {
        if s.get_char(i) == ':' {
            let seg = s.substring_char(start, i).to_owned();
            proof {
                let a = s@.subrange(start as int, i as int);
                let b = s@.skip(i as int + 1);
                assert(!a.contains(':')) by {
                    assert(forall|k: int| 0 <= k < a.len() ==> a[k] == s@[start + k]);
                }
                assert(a + seq![':'] + b =~= s@.skip(start as int));
                crate::path_model::lemma_split_prefix(a, b);
                assert(seg_views(r@.push(seg)) =~~= seg_views(r@) + seq![a]);
                assert(seg_views(r@.push(seg)) + split_path(b) =~~= seg_views(r@) + (seq![a]
                    + split_path(b)));
            }
            r.push(seg);
            start = i + 1;
        }
        i = i + 1;
    }
    let seg = s.substring_char(start, len).to_owned();
    proof {
        let a = s@.skip(start as int);
        assert(!a.contains(':')) by {
            assert(forall|k: int| 0 <= k < a.len() ==> a[k] == s@[start + k]);
        }
        crate::path_model::lemma_split_whole(a);
        assert(seg@ =~= a);
        assert(seg_views(r@.push(seg)) =~~= seg_views(r@) + seq![a]);
    }
    r.push(seg);
    r
}

/// Whether the search-path value `path` holds an entry naming the same
/// directory as `dir`, compared after normalization.
pub fn path_contains_dir(path: &str, dir: &str) -> (b: bool)
    ensures
        b == path_has_dir(path@, dir@),
{
    let nd = normalize_path(dir);
    let segs = split_on_sep(path);
    let mut i: usize = 0;
    while i < segs.len()
        invariant
            i <= segs@.len(),
            nd@ == ident(dir@),
            seg_views(segs@) == split_path(path@),
            forall|k: int| 0 <= k < i ==> ident(split_path(path@)[k]) != ident(dir@),
        decreases segs@.len() - i,
    {
        let ns = normalize_path(segs[i].as_str());
        assert(ns@ == ident(split_path(path@)[i as int]));
        if ns == nd {
            return true;
        }
        i = i + 1;
    }
    false
}

/// Joins entries back into one search-path value, `':'` between entries.
pub fn join_with_sep(segs: &Vec<String>) -> (r: String)
    ensures
        r@ == join_path(seg_views(segs@)),
{
    if segs.len() == 0 {
        let r = String::new();
        assert(r@ =~= join_path(seg_views(segs@)));
        return r;
    }
    let mut r = String::from_str(segs[0].as_str());
    let mut i: usize = 1;
    assert(seg_views(segs@.take(1)) =~~= seq![segs@[0]@]);
    while i < segs.len()
        invariant
            1 <= i <= segs@.len(),
            r@ == join_path(seg_views(segs@.take(i as int))),
        decreases segs@.len() - i,
    {
        proof {
            reveal_strlit(":");
            assert(":"@ =~= seq![':']);
            crate::path_model::lemma_join_push(seg_views(segs@.take(i as int)), segs@[i as int]@);
            assert(seg_views(segs@.take(i as int + 1)) =~~= seg_views(segs@.take(i as int)).push(
                segs@[i as int]@,
            ));
        }
        r = r.concat(":");
        r = r.concat(segs[i].as_str());
        i = i + 1;
    }
    assert(segs@.take(segs@.len() as int) =~= segs@);
    r
}

fn contains_string(v: &Vec<String>, x: &String) -> (b: bool)
    ensures
        b == exists|k: int| 0 <= k < v@.len() && v@[k]@ == x@,
{
    let mut i: usize = 0;
    while i < v.len()
        invariant
            i <= v@.len(),
            forall|k: int| 0 <= k < i ==> v@[k]@ != x@,
        decreases v@.len() - i,
    {
        if v[i] == *x {
            return true;
        }
        i = i + 1;
    }
    false
}

/// Deduplicates the entries of a search-path value: the first entry of each
/// identity is kept in its original spelling; later entries with an already
/// seen identity, and entries whose identity is empty, are dropped.
pub fn deduplicate_path(path: &str) -> (r: String)
    ensures
        r@ == dedup_path(path@),
{
    let segs = split_on_sep(path);
    let ghost all = split_path(path@);
    let mut seen: Vec<String> = Vec::new();
    let mut kept: Vec<String> = Vec::new();
    let ghost mut seenset = Set::<Seq<char>>::empty();
    let mut i: usize = 0;
    assert(all.skip(0) =~= all);
    while i < segs.len()
        invariant
            i <= segs@.len(),
            seg_views(segs@) == all,
            all == split_path(path@),
            dedup_segs(all, Set::empty()) == seg_views(kept@) + dedup_segs(
                all.skip(i as int),
                seenset,
            ),
            forall|id: Seq<char>|
                seenset.contains(id) <==> exists|k: int| 0 <= k < seen@.len() && seen@[k]@ == id,
        decreases segs@.len() - i,
    {
        let ns = normalize_path(segs[i].as_str());
        proof {
            assert(seg_views(segs@)[i as int] == segs@[i as int]@);
            assert(ns@ == ident(all[i as int]));
            assert(all.skip(i as int)[0] == all[i as int]);
            assert(all.skip(i as int).skip(1) =~~= all.skip(i as int + 1));
        }
        if ns.as_str().is_empty() {
            assert(dedup_segs(all.skip(i as int), seenset) == dedup_segs(
                all.skip(i as int + 1),
                seenset,
            ));
        } else if contains_string(&seen, &ns) {
            assert(seenset.contains(ident(all[i as int])));
            assert(dedup_segs(all.skip(i as int), seenset) == dedup_segs(
                all.skip(i as int + 1),
                seenset,
            ));
        } else {
            proof {
                assert(!seenset.contains(ident(all[i as int])));
                assert(dedup_segs(all.skip(i as int), seenset) == seq![all[i as int]] + dedup_segs(
                    all.skip(i as int + 1),
                    seenset.insert(ident(all[i as int])),
                ));
                assert(seg_views(kept@.push(segs@[i as int])) =~~= seg_views(kept@) + seq![
                    all[i as int],
                ]);
                assert(seg_views(kept@) + (seq![all[i as int]] + dedup_segs(
                    all.skip(i as int + 1),
                    seenset.insert(ident(all[i as int])),
                )) =~~= (seg_views(kept@) + seq![all[i as int]]) + dedup_segs(
                    all.skip(i as int + 1),
                    seenset.insert(ident(all[i as int])),
                ));
            }
            let seg = segs[i].clone();
            kept.push(seg);
            let ghost old_seen = seen@;
            let ghost old_set = seenset;
            let ghost nid = ns@;
            proof {
                seenset = seenset.insert(ns@);
            }
            seen.push(ns);
            proof {
                assert(seen@[old_seen.len() as int]@ == nid);
                assert forall|id: Seq<char>|
                    seenset.contains(id) <==> exists|k: int|
                        0 <= k < seen@.len() && seen@[k]@ == id by {
                    if seenset.contains(id) {
                        if id == nid {
                            assert(seen@[old_seen.len() as int]@ == id);
                        } else {
                            let k = choose|k: int| 0 <= k < old_seen.len() && old_seen[k]@ == id;
                            assert(seen@[k]@ == id);
                        }
                    }
                    if exists|k: int| 0 <= k < seen@.len() && seen@[k]@ == id {
                        let k = choose|k: int| 0 <= k < seen@.len() && seen@[k]@ == id;
                        if k < old_seen.len() {
                            assert(old_seen[k]@ == id);
                            assert(old_set.contains(id));
                        } else {
                            assert(id == nid);
                        }
                    }
                }
            }
        }
        i = i + 1;
    }
    proof {
        assert(all.skip(all.len() as int) =~= Seq::<Seq<char>>::empty());
        assert(dedup_segs(Seq::<Seq<char>>::empty(), seenset) == Seq::<Seq<char>>::empty());
        assert(seg_views(kept@) + Seq::<Seq<char>>::empty() =~~= seg_views(kept@));
    }
    join_with_sep(&kept)
}

/// Inserts `dir` at the front of `current_path` unless an entry with its
/// identity is already there; in that case the value comes back unchanged.
pub fn add_to_path_if_missing(current_path: &str, dir: &str) -> (r: String)
    ensures
        r@ == add_if_missing(current_path@, dir@),
{
    if path_contains_dir(current_path, dir) {
        current_path.to_owned()
    } else if current_path.is_empty() {
        dir.to_owned()
    } else {
        let r = String::from_str(dir).concat(":").concat(current_path);
        proof {
            reveal_strlit(":");
            assert(":"@ =~= seq![':']);
            assert(r@ =~= dir@ + seq![':'] + current_path@);
        }
        r
    }
}

/// A directory offered for enrichment, together with whether a probe found
/// it on the filesystem. The probe itself is the caller's business: these
/// functions never touch the filesystem.
pub struct CandidateDir {
    pub dir: String,
    pub present: bool,
}

/// The candidate directories that qualify for enrichment: present on the
/// filesystem and not already in the current search path, in input order.
pub open spec fn qualifying(cands: Seq<CandidateDir>, current: Seq<char>) -> Seq<Seq<char>>
    decreases cands.len(),
{
    if cands.len() == 0 {
        Seq::empty()
    } else {
        let init = qualifying(cands.drop_last(), current);
        let c = cands.last();
        if c.present && !path_has_dir(current, c.dir@) {
            init.push(c.dir@)
        } else {
            init
        }
    }
}

/// What enrichment returns: nothing when no candidate qualifies, else the
/// qualifying directories ahead of the current value, deduplicated.
pub open spec fn enhance_spec(current: Seq<char>, cands: Seq<CandidateDir>) -> Option<Seq<char>> {
    let q = qualifying(cands, current);
    if q.len() == 0 {
        None
    } else {
        Some(dedup_path(join_path(q.push(current))))
    }
}

/// Enriches `current_path` with the candidate directories that are present
/// and not already there; `None` signals that nothing qualified and the
/// caller must leave its state untouched.
pub fn enhance_path_for_common_locations(current_path: &str, candidates: &Vec<CandidateDir>) -> (r:
    Option<String>)
    ensures
        (r is Some) == (enhance_spec(current_path@, candidates@) is Some),
        r matches Some(s) ==> enhance_spec(current_path@, candidates@) == Some(s@),
{
    let mut quals: Vec<String> = Vec::new();
    let mut i: usize = 0;
    assert(candidates@.take(0) =~= Seq::<CandidateDir>::empty());
    while i < candidates.len()
        invariant
            i <= candidates@.len(),
            seg_views(quals@) == qualifying(candidates@.take(i as int), current_path@),
        decreases candidates@.len() - i,
    {
        proof {
            assert(candidates@.take(i as int + 1).drop_last() =~= candidates@.take(i as int));
            assert(candidates@.take(i as int + 1).last() == candidates@[i as int]);
        }
        if candidates[i].present && !path_contains_dir(current_path, candidates[i].dir.as_str()) {
            let d = candidates[i].dir.clone();
            assert(seg_views(quals@.push(d)) =~~= seg_views(quals@).push(d@));
            quals.push(d);
        }
        i = i + 1;
    }
    assert(candidates@.take(candidates@.len() as int) =~= candidates@);
    if quals.len() == 0 {
        return None;
    }
    let cur = current_path.to_owned();
    assert(seg_views(quals@.push(cur)) =~~= seg_views(quals@).push(current_path@));
    quals.push(cur);
    let joined = join_with_sep(&quals);
    Some(deduplicate_path(joined.as_str()))
}

/// The entries of a deduplicated value are exactly the kept entries (an
/// empty result splits into one empty entry, as every empty string does).
pub proof fn lemma_dedup_path_entries(p: Seq<char>)
    ensures
        dedup_segs(split_path(p), Set::empty()).len() == 0 ==> dedup_path(p)
            == Seq::<char>::empty(),
        dedup_segs(split_path(p), Set::empty()).len() > 0 ==> split_path(dedup_path(p))
            == dedup_segs(split_path(p), Set::empty()),
{
    let all = split_path(p);
    let ds = dedup_segs(all, Set::empty());
    if ds.len() == 0 {
    } else {
        crate::path_model::lemma_split_no_colon(p);
        crate::path_model::lemma_dedup_segs_membership(all, Set::empty());
        assert forall|j: int| 0 <= j < ds.len() implies !(#[trigger] ds[j]).contains(':') by {
            let i = choose|i: int| 0 <= i < all.len() && all[i] == ds[j];
            assert(!all[i].contains(':'));
        }
        crate::path_model::lemma_split_join(ds);
    }
}

/// Law: deduplicating a second time changes nothing.
pub proof fn lemma_deduplicate_idempotent(p: Seq<char>)
    ensures
        dedup_path(dedup_path(p)) == dedup_path(p),
{
    let all = split_path(p);
    let ds = dedup_segs(all, Set::empty());
    lemma_dedup_path_entries(p);
    if ds.len() == 0 {
        let e = Seq::<char>::empty();
        assert(split_path(e) == seq![e]);
        assert(ident(e).len() == 0);
        assert(seq![e].skip(1) =~~= Seq::<Seq<char>>::empty());
        assert(dedup_segs(Seq::<Seq<char>>::empty(), Set::<Seq<char>>::empty())
            == Seq::<Seq<char>>::empty());
        assert(dedup_segs(split_path(e), Set::empty()) == Seq::<Seq<char>>::empty());
    } else {
        crate::path_model::lemma_dedup_segs_distinct(all, Set::empty());
        crate::path_model::lemma_dedup_segs_stable(ds, Set::empty());
    }
}

/// Law: the entries of a deduplicated value have pairwise distinct
/// identities.
pub proof fn lemma_deduplicate_distinct(p: Seq<char>)
    ensures
        forall|i: int, j: int|
            0 <= i < j < split_path(dedup_path(p)).len() ==> ident(
                #[trigger] split_path(dedup_path(p))[i],
            ) != ident(#[trigger] split_path(dedup_path(p))[j]),
{
    let all = split_path(p);
    let ds = dedup_segs(all, Set::empty());
    lemma_dedup_path_entries(p);
    if ds.len() == 0 {
        let e = Seq::<char>::empty();
        assert(split_path(e) == seq![e]);
    } else {
        crate::path_model::lemma_dedup_segs_distinct(all, Set::empty());
    }
}

/// Law: deduplication keeps exactly the directories that were present
/// (among those whose identity is nonempty).
pub proof fn lemma_dedup_preserves_dirs(p: Seq<char>, d: Seq<char>)
    requires
        ident(d).len() > 0,
    ensures
        path_has_dir(dedup_path(p), d) == path_has_dir(p, d),
{
    let all = split_path(p);
    let ds = dedup_segs(all, Set::empty());
    lemma_dedup_path_entries(p);
    crate::path_model::lemma_dedup_segs_same_idents(all, Set::empty(), ident(d));
    if ds.len() == 0 {
        let e = Seq::<char>::empty();
        assert(split_path(e) == seq![e]);
        assert(ident(e).len() == 0);
        assert(!path_has_dir(dedup_path(p), d));
        assert(!path_has_dir(p, d));
    }
}

/// Law: a search path into which a directory has been inserted contains it.
/// A string holding the separator itself can never equal a single entry, so
/// such strings are left out.
pub proof fn lemma_add_contains(p: Seq<char>, d: Seq<char>)
    requires
        !d.contains(':'),
    ensures
        path_has_dir(add_if_missing(p, d), d),
{
    if path_has_dir(p, d) {
    } else if p.len() == 0 {
        crate::path_model::lemma_split_whole(d);
        assert(ident(split_path(d)[0]) == ident(d));
    } else {
        crate::path_model::lemma_split_prefix(d, p);
        let r = d + seq![':'] + p;
        assert(split_path(r)[0] == d);
        assert(ident(split_path(r)[0]) == ident(d));
    }
}

/// Law: inserting the same directory twice is the same as inserting it
/// once.
pub proof fn lemma_add_idempotent(p: Seq<char>, d: Seq<char>)
    requires
        !d.contains(':'),
    ensures
        add_if_missing(add_if_missing(p, d), d) == add_if_missing(p, d),
{
    lemma_add_contains(p, d);
}

/// Law: when every candidate directory is already in the current search
/// path, enrichment reports that nothing qualifies.
pub proof fn lemma_enhance_without_missing(current: Seq<char>, cands: Seq<CandidateDir>)
    requires
        forall|i: int| 0 <= i < cands.len() ==> path_has_dir(current, (#[trigger] cands[i]).dir@),
    ensures
        enhance_spec(current, cands) is None,
    decreases cands.len(),
{
    if cands.len() == 0 {
    } else {
        assert(forall|i: int| 0 <= i < cands.drop_last().len() ==> cands.drop_last()[i]
            == cands[i]);
        lemma_enhance_without_missing(current, cands.drop_last());
        assert(path_has_dir(current, cands.last().dir@));
    }
}

} // verus!
