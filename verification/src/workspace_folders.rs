//! The workspace folders the client reports, kept as `(uri, name)` pairs.
use vstd::prelude::*;
use vstd::string::StrSliceExecFns;
use crate::text::text_eq;

verus! {

pub open spec fn folder_views(v: Seq<(String, String)>) -> Seq<(Seq<char>, Seq<char>)> {
    v.map_values(|f: (String, String)| (f.0@, f.1@))
}

/// Some folder of `v` has URI `uri`.
pub open spec fn has_folder(v: Seq<(Seq<char>, Seq<char>)>, uri: Seq<char>) -> bool {
    exists|i: int| 0 <= i < v.len() && (#[trigger] v[i]).0 == uri
}

/// The folders not among `removed`, in order.
pub open spec fn retained(folders: Seq<(Seq<char>, Seq<char>)>, removed: Seq<(Seq<char>, Seq<char>)>) -> Seq<
    (Seq<char>, Seq<char>),
>
    decreases folders.len(),
{
    if folders.len() == 0 {
        Seq::empty()
    } else {
        retained(folders.drop_last(), removed) + if has_folder(removed, folders.last().0) {
            Seq::empty()
        } else {
            seq![folders.last()]
        }
    }
}

/// `folders` followed by each added folder whose URI is not there yet.
pub open spec fn with_added(folders: Seq<(Seq<char>, Seq<char>)>, added: Seq<(Seq<char>, Seq<char>)>) -> Seq<
    (Seq<char>, Seq<char>),
>
    decreases added.len(),
{
    if added.len() == 0 {
        folders
    } else {
        let before = with_added(folders, added.drop_last());
        if has_folder(before, added.last().0) {
            before
        } else {
            before.push(added.last())
        }
    }
}

fn find_folder(v: &Vec<(String, String)>, uri: &str) -> (r: bool)
    ensures
        r == has_folder(folder_views(v@), uri@),
{
    let mut j: usize = 0;
    while j < v.len()
        invariant
            j <= v@.len(),
            forall|q: int| 0 <= q < j ==> v@[q].0@ != uri@,
        decreases v@.len() - j,
    {
        if text_eq(v[j].0.as_str(), uri) {
            assert(folder_views(v@)[j as int].0 == uri@);
            return true;
        }
        j = j + 1;
    }
    assert forall|i: int| 0 <= i < folder_views(v@).len() implies (#[trigger] folder_views(v@)[i]).0 != uri@ by {
        assert(v@[i].0@ != uri@);
    }
    false
}

/// Applies a change of workspace folders: the removed ones leave, then
/// each added one joins unless its URI is already there.
pub fn update_workspace_folders(
    folders: Vec<(String, String)>,
    removed: &Vec<(String, String)>,
    added: Vec<(String, String)>,
) -> (r: Vec<(String, String)>)
    ensures
        folder_views(r@) == with_added(retained(folder_views(folders@), folder_views(removed@)), folder_views(added@)),
{
    let ghost all = folder_views(folders@);
    let ghost gone = folder_views(removed@);
    let mut kept: Vec<(String, String)> = Vec::new();
    let mut j: usize = 0;
    assert(all.subrange(0, 0) =~= Seq::<(Seq<char>, Seq<char>)>::empty());
    while j < folders.len()
        invariant
            all == folder_views(folders@),
            gone == folder_views(removed@),
            j <= folders@.len(),
            folder_views(kept@) == retained(all.subrange(0, j as int), gone),
        decreases folders@.len() - j,
    {
        assert(all.subrange(0, j + 1).drop_last() =~= all.subrange(0, j as int));
        assert(all.subrange(0, j + 1).last() == (folders@[j as int].0@, folders@[j as int].1@));
        if !find_folder(removed, folders[j].0.as_str()) {
            let ghost before = folder_views(kept@);
            kept.push((folders[j].0.clone(), folders[j].1.clone()));
            assert(folder_views(kept@) =~= before.push((folders@[j as int].0@, folders@[j as int].1@)));
        }
        j = j + 1;
    }
    assert(all.subrange(0, j as int) =~= all);
    let ghost base = folder_views(kept@);
    let ghost more = folder_views(added@);
    let mut k: usize = 0;
    assert(more.subrange(0, 0) =~= Seq::<(Seq<char>, Seq<char>)>::empty());
    while k < added.len()
        invariant
            more == folder_views(added@),
            k <= added@.len(),
            folder_views(kept@) == with_added(base, more.subrange(0, k as int)),
        decreases added@.len() - k,
    {
        assert(more.subrange(0, k + 1).drop_last() =~= more.subrange(0, k as int));
        assert(more.subrange(0, k + 1).last() == (added@[k as int].0@, added@[k as int].1@));
        if !find_folder(&kept, added[k].0.as_str()) {
            let ghost before = folder_views(kept@);
            kept.push((added[k].0.clone(), added[k].1.clone()));
            assert(folder_views(kept@) =~= before.push((added@[k as int].0@, added@[k as int].1@)));
        }
        k = k + 1;
    }
    assert(more.subrange(0, k as int) =~= more);
    kept
}

/// The name of a folder made from a root URI: the URI's last path segment
/// when it is not empty, else `CEA workspace`.
pub fn folder_name(last_segment: Option<&str>) -> (r: String)
    ensures
        r@ == match last_segment {
            Some(s) => if s@.len() > 0 {
                s@
            } else {
                "CEA workspace"@
            },
            None => "CEA workspace"@,
        },
{
    match last_segment {
        Some(s) => {
            if s.unicode_len() > 0 {
                s.to_owned()
            } else {
                String::from_str("CEA workspace")
            }
        },
        None => String::from_str("CEA workspace"),
    }
}

// ------------------------------------------------------------ laws

/// No URI occurs twice among the folders.
pub open spec fn distinct_uris(v: Seq<(Seq<char>, Seq<char>)>) -> bool {
    forall|i: int, j: int| #![trigger v[i], v[j]] 0 <= i < j < v.len() ==> v[i].0 != v[j].0
}

proof fn lemma_has_folder_prefix(p: Seq<(Seq<char>, Seq<char>)>, f: Seq<(Seq<char>, Seq<char>)>, u: Seq<char>)
    requires
        p.len() <= f.len(),
        forall|i: int| 0 <= i < p.len() ==> #[trigger] p[i] == f[i],
        has_folder(p, u),
    ensures
        has_folder(f, u),
{
    let i = choose|i: int| 0 <= i < p.len() && (#[trigger] p[i]).0 == u;
    assert(f[i].0 == u);
}

proof fn lemma_retained(f: Seq<(Seq<char>, Seq<char>)>, r: Seq<(Seq<char>, Seq<char>)>)
    ensures
        forall|k: int| 0 <= k < retained(f, r).len() ==> has_folder(f, (#[trigger] retained(f, r)[k]).0)
            && !has_folder(r, retained(f, r)[k].0),
        forall|k: int| 0 <= k < f.len() && !has_folder(r, (#[trigger] f[k]).0) ==> has_folder(
            retained(f, r),
            f[k].0,
        ),
        distinct_uris(f) ==> distinct_uris(retained(f, r)),
    decreases f.len(),
{
    if f.len() > 0 {
        let p = f.drop_last();
        lemma_retained(p, r);
        let rp = retained(p, r);
        let w = retained(f, r);
        let last = f.last();
        let kept = !has_folder(r, last.0);
        assert(w == rp + if kept { seq![last] } else { Seq::empty() });
        assert forall|k: int| 0 <= k < w.len() implies has_folder(f, (#[trigger] w[k]).0) && !has_folder(r, w[k].0) by {
            if k < rp.len() {
                assert(w[k] == rp[k]);
                lemma_has_folder_prefix(p, f, rp[k].0);
            } else {
                assert(w[k] == last);
                assert(f[f.len() - 1] == last);
            }
        }
        assert forall|k: int| 0 <= k < f.len() && !has_folder(r, (#[trigger] f[k]).0) implies has_folder(w, f[k].0) by {
            if k < p.len() {
                assert(f[k] == p[k]);
                lemma_has_folder_prefix(rp, w, p[k].0);
            } else {
                assert(w[rp.len() as int] == last);
            }
        }
        if distinct_uris(f) {
            assert forall|i: int, j: int| #![trigger w[i], w[j]] 0 <= i < j < w.len() implies w[i].0 != w[j].0 by {
                assert(distinct_uris(p)) by {
                    assert forall|a: int, b: int| #![trigger p[a], p[b]] 0 <= a < b < p.len() implies p[a].0 != p[b].0 by {
                        assert(f[a] == p[a] && f[b] == p[b]);
                    }
                }
                if j < rp.len() {
                    assert(w[i] == rp[i] && w[j] == rp[j]);
                } else {
                    assert(w[i] == rp[i] && w[j] == last);
                    let q = choose|q: int| 0 <= q < p.len() && (#[trigger] p[q]).0 == rp[i].0;
                    assert(f[q] == p[q]);
                    assert(f[q].0 != f[f.len() - 1].0);
                }
            }
        }
    }
}

proof fn lemma_with_added(base: Seq<(Seq<char>, Seq<char>)>, a: Seq<(Seq<char>, Seq<char>)>)
    ensures
        forall|k: int| 0 <= k < base.len() ==> has_folder(with_added(base, a), (#[trigger] base[k]).0),
        forall|k: int| 0 <= k < a.len() ==> has_folder(with_added(base, a), (#[trigger] a[k]).0),
        forall|k: int| 0 <= k < with_added(base, a).len() ==> has_folder(base, (#[trigger] with_added(base, a)[k]).0)
            || has_folder(a, with_added(base, a)[k].0),
        distinct_uris(base) ==> distinct_uris(with_added(base, a)),
    decreases a.len(),
{
    if a.len() > 0 {
        let pa = a.drop_last();
        lemma_with_added(base, pa);
        let before = with_added(base, pa);
        let w = with_added(base, a);
        let last = a.last();
        if has_folder(before, last.0) {
            assert(w == before);
            assert forall|k: int| 0 <= k < a.len() implies has_folder(w, (#[trigger] a[k]).0) by {
                if k < pa.len() {
                    assert(a[k] == pa[k]);
                }
            }
            assert forall|k: int| 0 <= k < w.len() implies has_folder(base, (#[trigger] w[k]).0) || has_folder(a, w[k].0) by {
                if has_folder(pa, w[k].0) {
                    lemma_has_folder_prefix(pa, a, w[k].0);
                }
            }
        } else {
            assert(w == before.push(last));
            assert forall|k: int| 0 <= k < base.len() implies has_folder(w, (#[trigger] base[k]).0) by {
                lemma_has_folder_prefix(before, w, base[k].0);
            }
            assert forall|k: int| 0 <= k < a.len() implies has_folder(w, (#[trigger] a[k]).0) by {
                if k < pa.len() {
                    assert(a[k] == pa[k]);
                    lemma_has_folder_prefix(before, w, pa[k].0);
                } else {
                    assert(w[before.len() as int] == last);
                }
            }
            assert forall|k: int| 0 <= k < w.len() implies has_folder(base, (#[trigger] w[k]).0) || has_folder(a, w[k].0) by {
                if k < before.len() {
                    assert(w[k] == before[k]);
                    if has_folder(pa, before[k].0) {
                        lemma_has_folder_prefix(pa, a, before[k].0);
                    }
                } else {
                    assert(w[k] == last);
                    assert(a[a.len() - 1] == last);
                }
            }
            if distinct_uris(base) {
                assert forall|i: int, j: int| #![trigger w[i], w[j]] 0 <= i < j < w.len() implies w[i].0 != w[j].0 by {
                    if j < before.len() {
                        assert(w[i] == before[i] && w[j] == before[j]);
                    } else {
                        assert(w[i] == before[i] && w[j] == last);
                        if before[i].0 == last.0 {
                            assert(has_folder(before, last.0));
                        }
                    }
                }
            }
        }
    }
}

/// A change of workspace folders keeps their URIs distinct when they were,
/// leaves every added folder among them, drops every removed one that is not
/// added back, and keeps every other folder.
pub proof fn law_folder_update(
    folders: Seq<(Seq<char>, Seq<char>)>,
    removed: Seq<(Seq<char>, Seq<char>)>,
    added: Seq<(Seq<char>, Seq<char>)>,
)
    requires
        distinct_uris(folders),
    ensures
        distinct_uris(with_added(retained(folders, removed), added)),
        forall|k: int| 0 <= k < added.len() ==> has_folder(
            with_added(retained(folders, removed), added),
            (#[trigger] added[k]).0,
        ),
        forall|u: Seq<char>| has_folder(removed, u) && !has_folder(added, u) ==> !has_folder(
            #[trigger] with_added(retained(folders, removed), added),
            u,
        ),
        forall|k: int| 0 <= k < folders.len() && !has_folder(removed, (#[trigger] folders[k]).0) ==> has_folder(
            with_added(retained(folders, removed), added),
            folders[k].0,
        ),
{
    let kept = retained(folders, removed);
    let r = with_added(kept, added);
    lemma_retained(folders, removed);
    lemma_with_added(kept, added);
    assert forall|u: Seq<char>| has_folder(removed, u) && !has_folder(added, u) implies !has_folder(
        #[trigger] with_added(retained(folders, removed), added),
        u,
    ) by {
        if has_folder(r, u) {
            let k = choose|k: int| 0 <= k < r.len() && (#[trigger] r[k]).0 == u;
            if has_folder(kept, r[k].0) {
                let q = choose|q: int| 0 <= q < kept.len() && (#[trigger] kept[q]).0 == u;
                assert(!has_folder(removed, kept[q].0));
            }
        }
    }
    assert forall|k: int| 0 <= k < folders.len() && !has_folder(removed, (#[trigger] folders[k]).0) implies has_folder(
        r,
        folders[k].0,
    ) by {
        assert(has_folder(kept, folders[k].0));
        let q = choose|q: int| 0 <= q < kept.len() && (#[trigger] kept[q]).0 == folders[k].0;
        assert(has_folder(r, kept[q].0));
    }
}

} // verus!
