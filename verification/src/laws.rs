//! The laws the registry obeys, proved once and for all.
//!
//! Each proof function here states a property that relates several
//! operations — what a caller may rely on beyond any single contract.

use vstd::prelude::*;
use crate::registry::{Registry, map_of, unique_names, valid_name, valid_path, lemma_map_of_remove};
use crate::store::{apply_line, line_of, load_lines, parse_line, spec_load, spec_save};
use crate::text::{lemma_first_occurrence_unique, lemma_split_lines_head, split_lines};

verus! {

/// The pairs of `ps` inserted into `m`, first pair first — what loading
/// the lines that serialise `ps` does to an accumulating map.
pub open spec fn insert_all(
    m: Map<Seq<char>, Seq<char>>,
    ps: Seq<(Seq<char>, Seq<char>)>,
) -> Map<Seq<char>, Seq<char>>
    decreases ps.len(),
{
    if ps.len() == 0 {
        m
    } else {
        insert_all(m.insert(ps[0].0, ps[0].1), ps.drop_first())
    }
}

/// Inserting one more pair on the right inserts it into the result.
proof fn lemma_insert_all_push(
    m: Map<Seq<char>, Seq<char>>,
    ps: Seq<(Seq<char>, Seq<char>)>,
    p: (Seq<char>, Seq<char>),
)
    ensures
        insert_all(m, ps.push(p)) == insert_all(m, ps).insert(p.0, p.1),
    decreases ps.len(),
{
    if ps.len() == 0 {
        assert(ps.push(p)[0] == p);
        assert(ps.push(p).drop_first() =~~= Seq::<(Seq<char>, Seq<char>)>::empty());
        assert(insert_all(m.insert(p.0, p.1), ps.push(p).drop_first()) == m.insert(p.0, p.1));
    } else {
        assert(ps.push(p)[0] == ps[0]);
        assert(ps.push(p).drop_first() =~~= ps.drop_first().push(p));
        lemma_insert_all_push(m.insert(ps[0].0, ps[0].1), ps.drop_first(), p);
        assert(insert_all(m, ps.push(p)) == insert_all(m.insert(ps[0].0, ps[0].1),
        ps.drop_first().push(p)));
        assert(insert_all(m, ps) == insert_all(m.insert(ps[0].0, ps[0].1), ps.drop_first()));
    }
}

/// Inserting a sequence of pairs into the empty map builds exactly its
/// by-name view.
proof fn lemma_insert_all_map_of(ps: Seq<(Seq<char>, Seq<char>)>)
    ensures
        insert_all(Map::empty(), ps) == map_of(ps),
    decreases ps.len(),
{
    if ps.len() == 0 {
    } else {
        let dl = ps.drop_last();
        lemma_insert_all_map_of(dl);
        lemma_insert_all_push(Map::empty(), dl, ps.last());
        assert(dl.push(ps.last()) =~~= ps);
    }
}

/// Loading the serialised form of `ps` into `m` inserts exactly the
/// pairs of `ps`, in order: every written line splits back off whole
/// and parses back into its pair.
proof fn lemma_load_of_save(m: Map<Seq<char>, Seq<char>>, ps: Seq<(Seq<char>, Seq<char>)>)
    requires
        forall|i: int| 0 <= i < ps.len() ==> valid_name(#[trigger] ps[i].0) && valid_path(ps[i].1),
    ensures
        load_lines(m, split_lines(spec_save(ps))) == insert_all(m, ps),
    decreases ps.len(),
{
    if ps.len() == 0 {
        assert(split_lines(Seq::<char>::empty()) =~~= Seq::<Seq<char>>::empty());
    } else {
        let p = ps[0];
        let body = p.0 + seq![':'] + p.1;
        let rest_text = spec_save(ps.drop_first());
        assert(spec_save(ps) =~= body + seq!['\n'] + rest_text);
        assert forall|j: int| 0 <= j < body.len() implies body[j] != '\n' by {
            if j < p.0.len() {
                assert(body[j] == p.0[j]);
            } else if j == p.0.len() {
                assert(body[j] == ':');
            } else {
                assert(body[j] == p.1[j - p.0.len() - 1]);
            }
        }
        lemma_split_lines_head(body, rest_text);
        let lines = seq![body] + split_lines(rest_text);
        assert(lines[0] == body);
        assert(lines.drop_first() =~~= split_lines(rest_text));
        assert(body[p.0.len() as int] == ':');
        assert forall|j: int| 0 <= j < p.0.len() implies body[j] != ':' by {
            assert(body[j] == p.0[j]);
        }
        lemma_first_occurrence_unique(body, ':', p.0.len() as int);
        assert(body.subrange(0, p.0.len() as int) =~= p.0);
        assert(body.subrange(p.0.len() as int + 1, body.len() as int) =~= p.1);
        assert(apply_line(m, body) == m.insert(p.0, p.1));
        assert(forall|i: int|
            0 <= i < ps.drop_first().len() ==> valid_name(#[trigger] ps.drop_first()[i].0)
                && valid_path(ps.drop_first()[i].1));
        lemma_load_of_save(m.insert(p.0, p.1), ps.drop_first());
        assert(load_lines(m, lines) == load_lines(apply_line(m, body), lines.drop_first()));
    }
}

/// Round trip: loading the text that `save` writes for a well-formed
/// registry yields exactly the registry's by-name view — the same set
/// of (name, path) pairs, irrespective of the order the lines stand in.
pub proof fn lemma_load_save_round_trip(r: Registry)
    requires
        r.wf(),
    ensures
        spec_load(spec_save(r@)) == r.as_map(),
{
    lemma_load_of_save(Map::empty(), r@);
    lemma_insert_all_map_of(r@);
}

/// Adding a point and then resolving its name yields the path just
/// added: a successful `add` appends the pair, and the by-name view of
/// the appended sequence binds the new name to the new path.
pub proof fn lemma_add_then_resolve(ps: Seq<(Seq<char>, Seq<char>)>, n: Seq<char>, p: Seq<char>)
    ensures
        map_of(ps.push((n, p))).dom().contains(n),
        map_of(ps.push((n, p)))[n] == p,
{
    assert(ps.push((n, p)).drop_last() =~~= ps);
    assert(ps.push((n, p)).last() == (n, p));
}

/// Removing a name and then resolving it fails: after the point at `i`
/// leaves, no surviving pair carries its name and the by-name view no
/// longer contains it, so `resolve`'s contract forces `NoSuchPoint`.
pub proof fn lemma_remove_then_resolve_fails(ps: Seq<(Seq<char>, Seq<char>)>, i: int)
    requires
        unique_names(ps),
        0 <= i < ps.len(),
    ensures
        forall|j: int| 0 <= j < ps.remove(i).len() ==> ps.remove(i)[j].0 != ps[i].0,
        !map_of(ps.remove(i)).dom().contains(ps[i].0),
{
    lemma_map_of_remove(ps, i);
    assert forall|j: int| 0 <= j < ps.remove(i).len() implies ps.remove(i)[j].0 != ps[i].0 by {
        if j < i {
            assert(ps.remove(i)[j] == ps[j]);
        } else {
            assert(ps.remove(i)[j] == ps[j + 1]);
        }
    }
}

/// A line without a separator aborts nothing and contributes nothing:
/// loading lines with a malformed line among them yields exactly what
/// loading the well-formed remainder yields.
pub proof fn lemma_malformed_line_skipped(
    m: Map<Seq<char>, Seq<char>>,
    before: Seq<Seq<char>>,
    l: Seq<char>,
    after: Seq<Seq<char>>,
)
    requires
        parse_line(l) is None,
    ensures
        load_lines(m, before + seq![l] + after) == load_lines(m, before + after),
    decreases before.len(),
{
    if before.len() == 0 {
        assert((before + seq![l] + after)[0] == l);
        assert((before + seq![l] + after).drop_first() =~~= after);
        assert(before + after =~~= after);
        assert(load_lines(m, before + seq![l] + after) == load_lines(apply_line(m, l), after));
    } else {
        assert((before + seq![l] + after)[0] == before[0]);
        assert((before + seq![l] + after).drop_first() =~~= before.drop_first() + seq![l] + after);
        assert((before + after)[0] == before[0]);
        assert((before + after).drop_first() =~~= before.drop_first() + after);
        lemma_malformed_line_skipped(apply_line(m, before[0]), before.drop_first(), l, after);
        assert(load_lines(m, before + seq![l] + after) == load_lines(apply_line(m, before[0]),
        before.drop_first() + seq![l] + after));
        assert(load_lines(m, before + after) == load_lines(apply_line(m, before[0]),
        before.drop_first() + after));
    }
}

} // verus!
