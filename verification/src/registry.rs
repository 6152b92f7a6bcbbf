//! The warp-point registry and its operations.
//!
//! A registry is a sequence of (name, path) points whose names are
//! unique. Its specification-level model is the by-name map built by
//! [`map_of`]; the by-path view is derived by filtering the sequence on
//! a path. Every operation is a pure in-memory transaction: the caller
//! loads the registry from text, applies one operation, and writes the
//! serialised text back.

use vstd::prelude::*;
use vstd::seq_lib::*;
use crate::errors::WarpError;
use crate::text::str_eq;

verus! {

/// One warp point: a short name bound to an absolute directory path.
pub struct WarpPoint {
    pub name: String,
    pub path: String,
}

/// A name must survive a `name:path` record: it may not contain the `:`
/// that ends the name field, nor the `'\n'` that ends the record.
pub open spec fn valid_name(s: Seq<char>) -> bool {
    forall|j: int| 0 <= j < s.len() ==> s[j] != ':' && s[j] != '\n'
}

/// A path may contain `:` (only the first `:` of a record splits it),
/// but not the `'\n'` that ends the record.
pub open spec fn valid_path(s: Seq<char>) -> bool {
    forall|j: int| 0 <= j < s.len() ==> s[j] != '\n'
}

/// The (name, path) character sequences of a sequence of points.
pub open spec fn pairs_of(ps: Seq<WarpPoint>) -> Seq<(Seq<char>, Seq<char>)> {
    ps.map_values(|p: WarpPoint| (p.name@, p.path@))
}

/// The by-name view of a sequence of (name, path) pairs: each pair
/// inserted in order, so a later binding of a name overwrites an
/// earlier one.
pub open spec fn map_of(ps: Seq<(Seq<char>, Seq<char>)>) -> Map<Seq<char>, Seq<char>>
    decreases ps.len(),
{
    if ps.len() == 0 {
        Map::empty()
    } else {
        map_of(ps.drop_last()).insert(ps.last().0, ps.last().1)
    }
}

/// Unique names: no two pairs share a first component.
pub open spec fn unique_names(ps: Seq<(Seq<char>, Seq<char>)>) -> bool {
    forall|i: int, j: int| 0 <= i < j < ps.len() ==> ps[i].0 != ps[j].0
}

/// A name is in the by-name view exactly when some pair holds it.
pub proof fn lemma_map_of_dom(ps: Seq<(Seq<char>, Seq<char>)>, n: Seq<char>)
    ensures
        map_of(ps).dom().contains(n) <==> (exists|i: int| 0 <= i < ps.len() && ps[i].0 == n),
    decreases ps.len(),
{
    if ps.len() == 0 {
    } else {
        let dl = ps.drop_last();
        lemma_map_of_dom(dl, n);
        if map_of(ps).dom().contains(n) {
            if n == ps.last().0 {
                assert(ps[ps.len() - 1].0 == n);
            } else {
                let i = choose|i: int| 0 <= i < dl.len() && dl[i].0 == n;
                assert(ps[i].0 == n);
            }
        }
        if exists|i: int| 0 <= i < ps.len() && ps[i].0 == n {
            let i = choose|i: int| 0 <= i < ps.len() && ps[i].0 == n;
            if i < ps.len() - 1 {
                assert(dl[i].0 == n);
            }
        }
    }
}

/// With unique names, each pair is what the by-name view binds its
/// name to.
pub proof fn lemma_map_of_index(ps: Seq<(Seq<char>, Seq<char>)>, i: int)
    requires
        unique_names(ps),
        0 <= i < ps.len(),
    ensures
        map_of(ps).dom().contains(ps[i].0),
        map_of(ps)[ps[i].0] == ps[i].1,
    decreases ps.len(),
{
    if i == ps.len() - 1 {
    } else {
        let dl = ps.drop_last();
        assert(dl[i] == ps[i]);
        lemma_map_of_index(dl, i);
        assert(ps[i].0 != ps.last().0);
    }
}

/// Removing the pair at `i` removes exactly its name from the by-name
/// view, when names are unique.
pub proof fn lemma_map_of_remove(ps: Seq<(Seq<char>, Seq<char>)>, i: int)
    requires
        unique_names(ps),
        0 <= i < ps.len(),
    ensures
        map_of(ps.remove(i)) == map_of(ps).remove(ps[i].0),
    decreases ps.len(),
{
    let q = ps.remove(i);
    let dl = ps.drop_last();
    if i == ps.len() - 1 {
        assert(q =~~= dl);
        assert(!map_of(dl).dom().contains(ps[i].0)) by {
            lemma_map_of_dom(dl, ps[i].0);
            if exists|j: int| 0 <= j < dl.len() && dl[j].0 == ps[i].0 {
                let j = choose|j: int| 0 <= j < dl.len() && dl[j].0 == ps[i].0;
                assert(ps[j].0 == ps[i].0);
            }
        }
        assert(map_of(dl).insert(ps.last().0, ps.last().1).remove(ps[i].0) =~= map_of(dl));
    } else {
        assert(q.drop_last() =~~= dl.remove(i));
        assert(q.last() == ps.last());
        assert(dl[i] == ps[i]);
        lemma_map_of_remove(dl, i);
        assert(ps[i].0 != ps.last().0);
        assert(map_of(q) =~= map_of(ps).remove(ps[i].0));
    }
}

/// Filtering a unique-name sequence keeps names unique, and keeps only
/// pairs of the unfiltered sequence.
pub proof fn lemma_filter_unique(
    ps: Seq<(Seq<char>, Seq<char>)>,
    pred: spec_fn((Seq<char>, Seq<char>)) -> bool,
)
    requires
        unique_names(ps),
    ensures
        unique_names(ps.filter(pred)),
        forall|k: int| 0 <= k < ps.filter(pred).len() ==> ps.contains(#[trigger] ps.filter(pred)[k]),
    decreases ps.len(),
{
    reveal(Seq::filter);
    if ps.len() == 0 {
    } else {
        let dl = ps.drop_last();
        let f = ps.filter(pred);
        let fdl = dl.filter(pred);
        lemma_filter_unique(dl, pred);
        assert(forall|k: int| 0 <= k < dl.len() ==> dl[k] == ps[k]);
        assert forall|k: int| 0 <= k < fdl.len() implies ps.contains(#[trigger] fdl[k]) by {
            assert(dl.contains(fdl[k]));
            let j = choose|j: int| 0 <= j < dl.len() && dl[j] == fdl[k];
            assert(ps[j] == fdl[k]);
        }
        if pred(ps.last()) {
            assert(f == fdl.push(ps.last()));
            assert forall|a: int, b: int| 0 <= a < b < f.len() implies f[a].0 != f[b].0 by {
                if b == f.len() - 1 {
                    assert(f[a] == fdl[a]);
                    assert(ps.contains(fdl[a]));
                    let j = choose|j: int| 0 <= j < ps.len() && ps[j] == fdl[a];
                    if ps[j].0 == ps.last().0 {
                        if j < ps.len() - 1 {
                            assert(ps[j].0 != ps[ps.len() - 1].0);
                        } else {
                            assert(dl.contains(fdl[a]));
                            let j2 = choose|j2: int| 0 <= j2 < dl.len() && dl[j2] == fdl[a];
                            assert(ps[j2].0 != ps[ps.len() - 1].0);
                        }
                    }
                }
            }
        } else {
            assert(f == fdl);
        }
    }
}

/// The full set of warp points at one moment. The `wf` invariant —
/// unique names, fields that fit the file format — is established by
/// [`crate::store::load`] and preserved by every operation.
pub struct Registry {
    pub points: Vec<WarpPoint>,
}

impl View for Registry {
    type V = Seq<(Seq<char>, Seq<char>)>;

    open spec fn view(&self) -> Seq<(Seq<char>, Seq<char>)> {
        pairs_of(self.points@)
    }
}

impl Registry {
    /// Well-formed: names are unique and every field fits the
    /// one-record-per-line file format.
    pub open spec fn wf(self) -> bool {
        &&& unique_names(self@)
        &&& forall|i: int|
            0 <= i < self@.len() ==> valid_name(#[trigger] self@[i].0) && valid_path(self@[i].1)
    }

    /// The by-name view: what this registry binds each name to.
    pub open spec fn as_map(self) -> Map<Seq<char>, Seq<char>> {
        map_of(self@)
    }

    /// Some point carries this name.
    pub open spec fn contains_name(self, n: Seq<char>) -> bool {
        exists|i: int| 0 <= i < self@.len() && self@[i].0 == n
    }

    /// The empty registry: what loading an absent file yields.
    pub fn new() -> (r: Registry)
        ensures
            r@ == Seq::<(Seq<char>, Seq<char>)>::empty(),
            r.wf(),
    {
        let r = Registry { points: Vec::new() };
        proof {
            assert(r@ =~= Seq::<(Seq<char>, Seq<char>)>::empty());
        }
        r
    }

    /// The number of points.
    pub fn len(&self) -> (n: usize)
        ensures
            n == self@.len(),
    {
        self.points.len()
    }

    /// The index of the point named `name`, if any.
    fn find(&self, name: &str) -> (r: Option<usize>)
        ensures
            match r {
                Some(i) => i < self@.len() && self@[i as int].0 == name@,
                None => forall|i: int| 0 <= i < self@.len() ==> self@[i].0 != name@,
            },
    {
        let n = self.points.len();
        let mut i: usize = 0;
        while i < n
            invariant
                i <= n,
                n == self.points@.len(),
                forall|j: int| 0 <= j < i ==> self@[j].0 != name@,
            decreases n - i,
        {
            if str_eq(self.points[i].name.as_str(), name) {
                return Some(i);
            }
            i += 1;
        }
        None
    }

    /// Translate a name to its path — the default operation, whose
    /// successful output a shell hook consumes. Returns the bound path
    /// exactly when the name is in the by-name view, and
    /// `NoSuchPoint` carrying the name exactly when it is not.
    pub fn resolve(&self, name: &str) -> (r: Result<String, WarpError>)
        requires
            self.wf(),
        ensures
            self.as_map().dom().contains(name@) == self.contains_name(name@),
            self.contains_name(name@) ==> (r matches Ok(p) && p@ == self.as_map()[name@]),
            !self.contains_name(name@) ==> (r matches Err(e) && e matches WarpError::NoSuchPoint(m)
                && m@ == name@),
    {
        proof {
            lemma_map_of_dom(self@, name@);
        }
        match self.find(name) {
            Some(i) => {
                proof {
                    lemma_map_of_index(self@, i as int);
                }
                Ok(self.points[i].path.clone())
            },
            None => Err(WarpError::NoSuchPoint(name.to_owned())),
        }
    }

    /// Bind `name` to `path`. When the name is free the point is
    /// appended; when it is taken the registry is left exactly as it
    /// was and the error names the point and the path it already maps
    /// to.
    pub fn add(&mut self, name: &str, path: &str) -> (r: Result<(), WarpError>)
        requires
            old(self).wf(),
            valid_name(name@),
            valid_path(path@),
        ensures
            final(self).wf(),
            old(self).contains_name(name@) ==> (r matches Err(e)
                && e matches WarpError::PointExists(n, p) && n@ == name@
                && p@ == old(self).as_map()[name@]
                && final(self)@ == old(self)@),
            !old(self).contains_name(name@) ==> (r is Ok
                && final(self)@ == old(self)@.push((name@, path@))
                && final(self).as_map() == old(self).as_map().insert(name@, path@)),
    {
        match self.find(name) {
            Some(i) => {
                proof {
                    lemma_map_of_index(self@, i as int);
                }
                Err(WarpError::PointExists(name.to_owned(), self.points[i].path.clone()))
            },
            None => {
                let wp = WarpPoint { name: name.to_owned(), path: path.to_owned() };
                self.points.push(wp);
                proof {
                    assert(self@ =~~= old(self)@.push((name@, path@)));
                    assert(self@.drop_last() =~~= old(self)@);
                }
                Ok(())
            },
        }
    }

    /// Unbind `name`. When it is bound, exactly its point leaves the
    /// sequence and its name leaves the by-name view, and the path it
    /// was bound to is returned; when it is not, the registry is left
    /// as it was.
    pub fn remove(&mut self, name: &str) -> (r: Result<String, WarpError>)
        requires
            old(self).wf(),
        ensures
            final(self).wf(),
            !old(self).contains_name(name@) ==> (r matches Err(e)
                && e matches WarpError::NoSuchPoint(m) && m@ == name@
                && final(self)@ == old(self)@),
            old(self).contains_name(name@) ==> (r matches Ok(p)
                && p@ == old(self).as_map()[name@]
                && (exists|i: int|
                    0 <= i < old(self)@.len() && old(self)@[i].0 == name@
                        && final(self)@ == old(self)@.remove(i))
                && final(self).as_map() == old(self).as_map().remove(name@)),
    {
        match self.find(name) {
            Some(i) => {
                proof {
                    lemma_map_of_index(self@, i as int);
                    lemma_map_of_remove(self@, i as int);
                }
                let wp = self.points.remove(i);
                proof {
                    assert(self@ =~~= old(self)@.remove(i as int));
                }
                Ok(wp.path)
            },
            None => Err(WarpError::NoSuchPoint(name.to_owned())),
        }
    }

    /// Bind `name` to `path`, overwriting any existing binding — what a
    /// later duplicate line does during a load.
    pub fn upsert(&mut self, name: String, path: String)
        requires
            old(self).wf(),
            valid_name(name@),
            valid_path(path@),
        ensures
            final(self).wf(),
            final(self).as_map() == old(self).as_map().insert(name@, path@),
    {
        let ghost m0 = self.as_map();
        let _ = self.remove(name.as_str());
        proof {
            assert(forall|j: int| 0 <= j < self@.len() ==> self@[j].0 != name@) by {
                if old(self).contains_name(name@) {
                    let i = choose|i: int|
                        0 <= i < old(self)@.len() && old(self)@[i].0 == name@
                            && self@ == old(self)@.remove(i);
                    assert forall|j: int| 0 <= j < self@.len() implies self@[j].0 != name@ by {
                        if j < i {
                            assert(self@[j] == old(self)@[j]);
                            if old(self)@[j].0 == name@ {
                                assert(old(self)@[j].0 != old(self)@[i].0);
                            }
                        } else {
                            assert(self@[j] == old(self)@[j + 1]);
                            if old(self)@[j + 1].0 == name@ {
                                assert(old(self)@[i].0 != old(self)@[j + 1].0);
                            }
                        }
                    }
                }
            }
        }
        let _ = self.add(name.as_str(), path.as_str());
        proof {
            if old(self).contains_name(name@) {
                assert(self.as_map() =~= m0.insert(name@, path@));
            } else {
                assert(self.as_map() =~= m0.insert(name@, path@));
            }
        }
    }

    /// The names bound to `path`, in registry order: the by-path view's
    /// entry for one path. Empty when no point references the path.
    #[verifier::loop_isolation(false)]
    pub fn names_for_path(&self, path: &str) -> (r: Vec<String>)
        ensures
            r.deep_view() == self@.filter(|pr: (Seq<char>, Seq<char>)| pr.1 == path@).map_values(
                |pr: (Seq<char>, Seq<char>)| pr.0,
            ),
    {
        broadcast use Seq::lemma_filter_push;

        let ghost pred = |pr: (Seq<char>, Seq<char>)| pr.1 == path@;
        let ghost f = |pr: (Seq<char>, Seq<char>)| pr.0;
        let n = self.points.len();
        let mut r: Vec<String> = Vec::new();
        proof {
            assert(self@.subrange(0, 0) =~= Seq::<(Seq<char>, Seq<char>)>::empty());
            assert(r.deep_view() =~~= self@.subrange(0, 0).filter(pred).map_values(f));
        }
        let mut i: usize = 0;
        while i < n
            invariant
                i <= n,
                n == self.points@.len(),
                r.deep_view() == self@.subrange(0, i as int).filter(pred).map_values(f),
            decreases n - i,
        {
            let ghost prefix = self@.subrange(0, i as int);
            let matched = str_eq(self.points[i].path.as_str(), path);
            if matched {
                r.push(self.points[i].name.clone());
                proof {
                    assert(r.deep_view() =~~= prefix.filter(pred).map_values(f).push(
                        self@[i as int].0));
                }
            }
            proof {
                assert(matched == pred(self@[i as int]));
                assert(self@.subrange(0, i + 1) =~~= prefix.push(self@[i as int]));
                if matched {
                    assert(prefix.push(self@[i as int]).filter(pred).map_values(f) =~~= prefix
                        .filter(pred).map_values(f).push(self@[i as int].0));
                } else {
                    assert(prefix.push(self@[i as int]).filter(pred) == prefix.filter(pred));
                }
            }
            i += 1;
        }
        proof {
            assert(self@.subrange(0, n as int) =~= self@);
        }
        r
    }

    /// Every path a point references, once each, in first-appearance
    /// order: the keys of the by-path view.
    pub fn distinct_paths(&self) -> (r: Vec<String>)
        ensures
            r.deep_view() == spec_distinct_paths(self@),
    {
        let n = self.points.len();
        let mut r: Vec<String> = Vec::new();
        proof {
            assert(self@.subrange(0, 0) =~= Seq::<(Seq<char>, Seq<char>)>::empty());
            assert(r.deep_view() =~~= spec_distinct_paths(self@.subrange(0, 0)));
        }
        let mut i: usize = 0;
        while i < n
            invariant
                i <= n,
                n == self.points@.len(),
                r.deep_view() == spec_distinct_paths(self@.subrange(0, i as int)),
            decreases n - i,
        {
            let ghost prefix = self@.subrange(0, i as int);
            let seen = vec_contains_str(&r, self.points[i].path.as_str());
            if !seen {
                r.push(self.points[i].path.clone());
                proof {
                    assert(r.deep_view() =~~= spec_distinct_paths(prefix).push(self@[i as int].1));
                }
            }
            proof {
                assert(self@.subrange(0, i + 1) =~~= prefix.push(self@[i as int]));
                assert(prefix.push(self@[i as int]).drop_last() =~~= prefix);
            }
            i += 1;
        }
        proof {
            assert(self@.subrange(0, n as int) =~= self@);
        }
        r
    }

    /// Remove every point whose path is among `missing`; every other
    /// point survives unchanged, in order. This is the mutation step of
    /// the clean operation, applied once after the whole sweep.
    #[verifier::loop_isolation(false)]
    pub fn remove_paths(&mut self, missing: &Vec<String>)
        requires
            old(self).wf(),
        ensures
            final(self).wf(),
            final(self)@ == old(self)@.filter(
                |pr: (Seq<char>, Seq<char>)| !missing.deep_view().contains(pr.1),
            ),
    {
        broadcast use Seq::lemma_filter_push;

        let ghost pred = |pr: (Seq<char>, Seq<char>)| !missing.deep_view().contains(pr.1);
        let n = self.points.len();
        let mut kept: Vec<WarpPoint> = Vec::new();
        proof {
            assert(old(self)@.subrange(0, 0) =~= Seq::<(Seq<char>, Seq<char>)>::empty());
            assert(pairs_of(kept@) =~~= old(self)@.subrange(0, 0).filter(pred));
        }
        let mut i: usize = 0;
        while i < n
            invariant
                i <= n,
                n == self.points@.len(),
                self@ == old(self)@,
                pairs_of(kept@) == old(self)@.subrange(0, i as int).filter(pred),
            decreases n - i,
        {
            let ghost prefix = old(self)@.subrange(0, i as int);
            let gone = vec_contains_str(missing, self.points[i].path.as_str());
            if !gone {
                let wp = WarpPoint {
                    name: self.points[i].name.clone(),
                    path: self.points[i].path.clone(),
                };
                kept.push(wp);
                proof {
                    assert(pairs_of(kept@) =~~= prefix.filter(pred).push(self@[i as int]));
                }
            }
            proof {
                assert(gone == !pred(self@[i as int]));
                assert(old(self)@.subrange(0, i + 1) =~~= prefix.push(self@[i as int]));
                if gone {
                    assert(prefix.push(self@[i as int]).filter(pred) == prefix.filter(pred));
                }
            }
            i += 1;
        }
        proof {
            assert(old(self)@.subrange(0, n as int) =~= old(self)@);
            lemma_filter_unique(old(self)@, pred);
        }
        self.points = kept;
        proof {
            assert forall|k: int|
                0 <= k < self@.len() implies valid_name(#[trigger] self@[k].0) && valid_path(
                self@[k].1) by {
                assert(old(self)@.contains(self@[k]));
                let j = choose|j: int| 0 <= j < old(self)@.len() && old(self)@[j] == self@[k];
            }
        }
    }

    /// All names joined by single spaces on one line, for shell
    /// completion scripts.
    pub fn completion_line(&self) -> (r: String)
        ensures
            r@ == spec_join_names(self@),
    {
        let n = self.points.len();
        let mut out = String::new();
        proof {
            assert(self@.subrange(0, 0) =~= Seq::<(Seq<char>, Seq<char>)>::empty());
            assert(out@ =~= spec_join_names(self@.subrange(0, 0)));
        }
        let mut i: usize = 0;
        while i < n
            invariant
                i <= n,
                n == self.points@.len(),
                out@ == spec_join_names(self@.subrange(0, i as int)),
            decreases n - i,
        {
            let ghost prefix = self@.subrange(0, i as int);
            if i > 0 {
                out.append(" ");
            }
            out.append(self.points[i].name.as_str());
            proof {
                reveal_strlit(" ");
                assert(self@.subrange(0, i + 1) =~~= prefix.push(self@[i as int]));
                assert(prefix.push(self@[i as int]).drop_last() =~~= prefix);
                if i == 0 {
                    assert(out@ =~= spec_join_names(self@.subrange(0, i + 1)));
                } else {
                    assert(out@ =~= spec_join_names(prefix) + seq![' '] + self@[i as int].0);
                }
            }
            i += 1;
        }
        proof {
            assert(self@.subrange(0, n as int) =~= self@);
        }
        out
    }
}

/// The distinct second components of `ps`, in first-appearance order.
pub open spec fn spec_distinct_paths(ps: Seq<(Seq<char>, Seq<char>)>) -> Seq<Seq<char>>
    decreases ps.len(),
{
    if ps.len() == 0 {
        Seq::empty()
    } else {
        let d = spec_distinct_paths(ps.drop_last());
        if d.contains(ps.last().1) {
            d
        } else {
            d.push(ps.last().1)
        }
    }
}

/// The first components of `ps` joined by single spaces.
pub open spec fn spec_join_names(ps: Seq<(Seq<char>, Seq<char>)>) -> Seq<char>
    decreases ps.len(),
{
    if ps.len() == 0 {
        Seq::empty()
    } else if ps.len() == 1 {
        ps[0].0
    } else {
        spec_join_names(ps.drop_last()) + seq![' '] + ps.last().0
    }
}

/// Whether some element of `v` holds the same characters as `s`.
pub fn vec_contains_str(v: &Vec<String>, s: &str) -> (r: bool)
    ensures
        r == v.deep_view().contains(s@),
{
    let n = v.len();
    let mut i: usize = 0;
    while i < n
        invariant
            i <= n,
            n == v@.len(),
            forall|j: int| 0 <= j < i ==> v.deep_view()[j] != s@,
        decreases n - i,
    {
        if str_eq(v[i].as_str(), s) {
            proof {
                assert(v.deep_view()[i as int] == s@);
            }
            return true;
        }
        i += 1;
    }
    proof {
        if v.deep_view().contains(s@) {
            let j = choose|j: int| 0 <= j < v.deep_view().len() && v.deep_view()[j] == s@;
        }
    }
    false
}

} // verus!
