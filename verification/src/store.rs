//! The registry store: the persisted line format, and where the file
//! lives.
//!
//! The persisted form is plain text, one `name:path` record per line.
//! [`load`] turns a file's whole contents into a [`Registry`] — a line
//! is split on its first `:`, a line without one is reported and
//! skipped, and a later duplicate name overwrites an earlier one.
//! [`save`] writes each point back as one line. Opening, reading and
//! writing the file itself is the caller's business: a file that could
//! not be opened is simply loaded as the empty string.

use vstd::prelude::*;
use vstd::string::StrSliceExecFns;
use crate::errors::WarpError;
use crate::registry::Registry;
use crate::text::{
    find_char_from,
    first_occurrence,
    has_suffix,
    lemma_first_occurrence_unique,
    lemma_split_lines_head,
    lemma_split_lines_single,
    split_lines,
};

verus! {

/// The two fields of a line, split on its first `:`; `None` when the
/// line has no `:` at all — the malformed-line condition.
pub open spec fn parse_line(l: Seq<char>) -> Option<(Seq<char>, Seq<char>)> {
    let j = first_occurrence(l, ':');
    if j == l.len() {
        None
    } else {
        Some((l.subrange(0, j), l.subrange(j + 1, l.len() as int)))
    }
}

/// One line folded into the by-name map: a well-formed line binds its
/// name (overwriting any earlier binding), a malformed line changes
/// nothing.
pub open spec fn apply_line(
    m: Map<Seq<char>, Seq<char>>,
    l: Seq<char>,
) -> Map<Seq<char>, Seq<char>> {
    match parse_line(l) {
        Some(p) => m.insert(p.0, p.1),
        None => m,
    }
}

/// A sequence of lines folded into `m`, first line first.
pub open spec fn load_lines(
    m: Map<Seq<char>, Seq<char>>,
    lines: Seq<Seq<char>>,
) -> Map<Seq<char>, Seq<char>>
    decreases lines.len(),
{
    if lines.len() == 0 {
        m
    } else {
        load_lines(apply_line(m, lines[0]), lines.drop_first())
    }
}

/// The by-name map that a file's contents denote.
pub open spec fn spec_load(text: Seq<char>) -> Map<Seq<char>, Seq<char>> {
    load_lines(Map::empty(), split_lines(text))
}

/// One persisted record: `name:path` and the line terminator.
pub open spec fn line_of(p: (Seq<char>, Seq<char>)) -> Seq<char> {
    p.0 + seq![':'] + p.1 + seq!['\n']
}

/// The persisted form of a sequence of points: their records in order.
pub open spec fn spec_save(ps: Seq<(Seq<char>, Seq<char>)>) -> Seq<char>
    decreases ps.len(),
{
    if ps.len() == 0 {
        Seq::empty()
    } else {
        line_of(ps[0]) + spec_save(ps.drop_first())
    }
}

/// Folding one more line on the right folds it into the result.
pub proof fn lemma_load_lines_push(m: Map<Seq<char>, Seq<char>>, lines: Seq<Seq<char>>, l: Seq<char>)
    ensures
        load_lines(m, lines.push(l)) == apply_line(load_lines(m, lines), l),
    decreases lines.len(),
{
    if lines.len() == 0 {
        assert(lines.push(l)[0] == l);
        assert(lines.push(l).drop_first() =~~= Seq::<Seq<char>>::empty());
        assert(load_lines(apply_line(m, l), lines.push(l).drop_first()) == apply_line(m, l));
    } else {
        assert(lines.push(l)[0] == lines[0]);
        assert(lines.push(l).drop_first() =~~= lines.drop_first().push(l));
        lemma_load_lines_push(apply_line(m, lines[0]), lines.drop_first(), l);
        assert(load_lines(m, lines.push(l)) == load_lines(apply_line(m, lines[0]),
        lines.drop_first().push(l)));
        assert(load_lines(m, lines) == load_lines(apply_line(m, lines[0]), lines.drop_first()));
    }
}

/// Parse a file's whole contents. The first result is the registry the
/// text denotes: well-formed, with exactly the by-name view
/// [`spec_load`] gives the text. The second is the malformed lines —
/// the ones without a `:` — for the caller to report; they never abort
/// the load.
#[verifier::loop_isolation(false)]
pub fn load(text: &str) -> (r: (Registry, Vec<String>))
    ensures
        r.0.wf(),
        r.0.as_map() == spec_load(text@),
        r.1.deep_view() == split_lines(text@).filter(|l: Seq<char>| parse_line(l) is None),
{
    broadcast use vstd::prelude::Seq::lemma_filter_push;

    let ghost bad_pred = |l: Seq<char>| parse_line(l) is None;
    let mut reg = Registry::new();
    let mut bad: Vec<String> = Vec::new();
    let n = text.unicode_len();
    let mut pos: usize = 0;
    let ghost mut done: Seq<Seq<char>> = Seq::empty();
    proof {
        assert(text@.subrange(0, n as int) =~= text@);
        assert(done + split_lines(text@) =~~= split_lines(text@));
        assert(bad.deep_view() =~~= done.filter(bad_pred));
    }
    while pos < n
        invariant
            pos <= n,
            split_lines(text@) == done + split_lines(text@.subrange(pos as int, n as int)),
            reg.wf(),
            reg.as_map() == load_lines(Map::empty(), done),
            bad.deep_view() == done.filter(bad_pred),
        decreases n - pos,
    {
        let i = find_char_from(text, pos, '\n');
        let line = text.substring_char(pos, i);
        let ghost rest = if i < n {
            text@.subrange(i as int + 1, n as int)
        } else {
            Seq::<char>::empty()
        };
        proof {
            let rem = text@.subrange(pos as int, n as int);
            if i < n {
                assert(rem =~= line@ + seq!['\n'] + rest);
                lemma_split_lines_head(line@, rest);
            } else {
                assert(rem =~= line@);
                lemma_split_lines_single(line@);
                assert(seq![line@] + split_lines(rest) =~~= seq![line@]);
            }
            assert(split_lines(text@.subrange(pos as int, n as int)) == seq![line@] + split_lines(
                rest));
        }
        let llen = line.unicode_len();
        let j = find_char_from(line, 0, ':');
        if j < llen {
            proof {
                lemma_first_occurrence_unique(line@, ':', j as int);
            }
            let name = line.substring_char(0, j).to_owned();
            let path = line.substring_char(j + 1, llen).to_owned();
            reg.upsert(name, path);
        } else {
            proof {
                lemma_first_occurrence_unique(line@, ':', j as int);
            }
            bad.push(line.to_owned());
            proof {
                assert(bad.deep_view() =~~= done.filter(bad_pred).push(line@));
            }
        }
        proof {
            lemma_load_lines_push(Map::empty(), done, line@);
            assert(done + (seq![line@] + split_lines(rest)) =~~= done.push(line@) + split_lines(
                rest));
            done = done.push(line@);
        }
        pos = if i < n {
            i + 1
        } else {
            n
        };
    }
    proof {
        assert(text@.subrange(n as int, n as int) =~= Seq::<char>::empty());
        assert(split_lines(Seq::<char>::empty()) =~~= Seq::<Seq<char>>::empty());
        assert(done =~~= split_lines(text@));
    }
    (reg, bad)
}

/// Serialise a registry: exactly [`spec_save`] of its points, one
/// `name:path` line per point, in registry order.
#[verifier::loop_isolation(false)]
pub fn save(r: &Registry) -> (text: String)
    ensures
        text@ == spec_save(r@),
{
    let n = r.points.len();
    let mut out = String::new();
    proof {
        assert(r@.subrange(0, n as int) =~~= r@);
        assert(out@ + spec_save(r@) =~= spec_save(r@));
    }
    let mut i: usize = 0;
    while i < n
        invariant
            i <= n,
            spec_save(r@) == out@ + spec_save(r@.subrange(i as int, n as int)),
        decreases n - i,
    {
        let ghost suf = r@.subrange(i as int, n as int);
        let ghost out0 = out@;
        out.append(r.points[i].name.as_str());
        out.append(":");
        out.append(r.points[i].path.as_str());
        out.append("\n");
        proof {
            reveal_strlit(":");
            reveal_strlit("\n");
            assert(":"@ =~= seq![':']);
            assert("\n"@ =~= seq!['\n']);
            assert(suf[0] == r@[i as int]);
            assert(suf.drop_first() =~~= r@.subrange(i as int + 1, n as int));
            assert(out@ =~= out0 + line_of(r@[i as int]));
            assert(out0 + line_of(suf[0]) + spec_save(suf.drop_first()) =~= out0 + (line_of(
                suf[0]) + spec_save(suf.drop_first())));
        }
        i += 1;
    }
    proof {
        assert(r@.subrange(n as int, n as int) =~~= Seq::<(Seq<char>, Seq<char>)>::empty());
    }
    out
}

/// Where the registry file lives: the caller's override when one is
/// set (the designated environment variable's value), else `.warprc`
/// under the home directory; `NoHomeDir` when neither can be had.
pub fn rc_path(override_path: Option<String>) -> (r: Result<String, WarpError>)
    ensures
        override_path matches Some(p) ==> r matches Ok(q) && q@ == p@,
        override_path is None ==> match r {
            Ok(q) => has_suffix(q@, "/.warprc"@),
            Err(e) => e is NoHomeDir,
        },
{
    match override_path {
        Some(p) => Ok(p),
        None => match home_dir_string() {
            Some(h) => {
                let mut q = h;
                q.append("/.warprc");
                proof {
                    assert(q@.subrange(q@.len() - "/.warprc"@.len(), q@.len() as int)
                        =~= "/.warprc"@);
                }
                Ok(q)
            },
            None => Err(WarpError::NoHomeDir),
        },
    }
}

/// Relies on dirs::home_dir: the platform's home directory, if one can
/// be determined, converted here to an owned string when it is valid
/// UTF-8. The result depends on the environment, so nothing is assumed
/// of its value.
#[verifier::external_body]
fn home_dir_string() -> Option<String> {
    dirs::home_dir().and_then(|d| d.to_str().map(|s| s.to_string()))
}

} // verus!
