//! Managed-section synchronization: replacing the delimited, engine-owned
//! region of a free-form text document while leaving every byte outside
//! the marker span untouched, and building that region's content from an
//! ordered list of entry names.

use vstd::prelude::*;
use vstd::string::StrSliceExecFns;
use vstd::string::StringExecFns;

use crate::strings::count_in;
use crate::strings::lemma_count_push;
use crate::strings::permutation_of;
use crate::strings::sort_names;
use crate::strings::sorted_lex;
use crate::strings::str_equal;
use crate::strings::strings_view;

verus! {

/// The first position at or after `from` where `pat` occurs in `doc`, or
/// `-1` if there is none.
pub open spec fn first_match_from(doc: Seq<char>, pat: Seq<char>, from: int) -> int
    decreases doc.len() - from + 1,
{
    if from < 0 || from + pat.len() > doc.len() {
        -1
    } else if doc.subrange(from, from + pat.len()) == pat {
        from
    } else {
        first_match_from(doc, pat, from + 1)
    }
}

/// Finds the first occurrence of `pat` in `doc` at or after `from`.
pub fn find_marker(doc: &str, pat: &str, from: usize) -> (r: Option<usize>)
    requires
        from <= doc@.len(),
    ensures
        match r {
            Some(i) => first_match_from(doc@, pat@, from as int) == i && from <= i && i
                + pat@.len() <= doc@.len() && doc@.subrange(i as int, i + pat@.len()) == pat@,
            None => first_match_from(doc@, pat@, from as int) == -1,
        },
{
    let dlen = doc.unicode_len();
    let plen = pat.unicode_len();
    if plen > dlen || from > dlen - plen {
        return None;
    }
    if plen == 0 {
        proof {
            assert(doc@.subrange(from as int, from as int) =~= pat@);
        }
        return Some(from);
    }
    let mut i: usize = from;
    while i <= dlen - plen
        invariant
            from <= i,
            i <= dlen - plen + 1,
            1 <= plen <= dlen,
            dlen == doc@.len(),
            plen == pat@.len(),
            first_match_from(doc@, pat@, from as int) == first_match_from(doc@, pat@, i as int),
        decreases dlen - i,
    {
        let cand = doc.substring_char(i, i + plen);
        if str_equal(cand, pat) {
            return Some(i);
        }
        i += 1;
    }
    None
}

/// The outcome of synchronizing the managed section of a document.
pub enum SectionOutcome {
    /// The document does not hold a start marker followed by an end
    /// marker; nothing is touched and the caller reports a warning.
    NoMarkers,
    /// The region between the markers already equals the generated body;
    /// no write is needed.
    UpToDate,
    /// The rewritten document: everything before the start marker, the
    /// start marker, the generated body, the end marker, and everything
    /// after the end marker.
    Updated(String),
}

/// Synchronizes the region delimited by `start` and `end_marker` in `doc`
/// to hold exactly `body`.
pub fn sync_section(doc: &str, start: &str, end_marker: &str, body: &str) -> (r: SectionOutcome)
    ensures
        ({
            let s = first_match_from(doc@, start@, 0);
            let e = first_match_from(doc@, end_marker@, s + start@.len() as int);
            if s < 0 || e < 0 {
                r is NoMarkers
            } else if doc@.subrange(s + start@.len(), e) == body@ {
                r is UpToDate
            } else {
                r matches SectionOutcome::Updated(nd) && nd@ == doc@.subrange(0, s) + start@
                    + body@ + end_marker@ + doc@.subrange(
                    e + end_marker@.len(),
                    doc@.len() as int,
                )
            }
        }),
{
    let dlen = doc.unicode_len();
    let slen = start.unicode_len();
    let elen = end_marker.unicode_len();
    match find_marker(doc, start, 0) {
        None => SectionOutcome::NoMarkers,
        Some(s) => {
            match find_marker(doc, end_marker, s + slen) {
                None => SectionOutcome::NoMarkers,
                Some(e) => {
                    let current = doc.substring_char(s + slen, e);
                    if str_equal(current, body) {
                        SectionOutcome::UpToDate
                    } else {
                        let mut nd = doc.substring_char(0, s).to_owned();
                        nd.append(start);
                        nd.append(body);
                        nd.append(end_marker);
                        nd.append(doc.substring_char(e + elen, dlen));
                        proof {
                            assert(nd@ =~= doc@.subrange(0, s as int) + start@ + body@
                                + end_marker@ + doc@.subrange(e + elen, dlen as int));
                        }
                        SectionOutcome::Updated(nd)
                    }
                },
            }
        },
    }
}

/// Managed-section containment: the rewritten document keeps every byte
/// up to and including the start marker, holds exactly the generated body
/// strictly between the markers, and keeps the end marker and every byte
/// after it.
pub proof fn lemma_section_containment(
    doc: Seq<char>,
    start: Seq<char>,
    end_marker: Seq<char>,
    body: Seq<char>,
    nd: Seq<char>,
    s: int,
    e: int,
)
    requires
        0 <= s,
        s + start.len() <= e,
        e + end_marker.len() <= doc.len(),
        doc.subrange(s, s + start.len()) == start,
        nd == doc.subrange(0, s) + start + body + end_marker + doc.subrange(
            e + end_marker.len(),
            doc.len() as int,
        ),
    ensures
        nd.len() == doc.len() - (e - s - start.len()) + body.len() - end_marker.len()
            + end_marker.len(),
        nd.subrange(0, s + start.len()) == doc.subrange(0, s + start.len()),
        nd.subrange(s + start.len(), s + start.len() + body.len()) == body,
        nd.subrange(s + start.len() + body.len(), nd.len() as int) == end_marker + doc.subrange(
            e + end_marker.len(),
            doc.len() as int,
        ),
{
    assert(nd.subrange(0, s + start.len()) =~= doc.subrange(0, s + start.len()));
    assert(nd.subrange(s + start.len(), s + start.len() + body.len()) =~= body);
    assert(nd.subrange(s + start.len() + body.len(), nd.len() as int) =~= end_marker
        + doc.subrange(e + end_marker.len(), doc.len() as int));
}

/// The section body's entry order: the designated entry, when present,
/// stands first and once; all other entries follow in lexical order with
/// their multiplicities kept.
pub fn ordered_entries(names: Vec<String>, first: &str) -> (r: Vec<String>)
    ensures
        count_in(strings_view(names@), first@) == 0 ==> sorted_lex(strings_view(r@))
            && permutation_of(strings_view(r@), strings_view(names@)),
        count_in(strings_view(names@), first@) > 0 ==> r@.len() >= 1 && strings_view(r@)[0]
            == first@ && sorted_lex(strings_view(r@).drop_first()) && count_in(
            strings_view(r@).drop_first(),
            first@,
        ) == 0 && (forall|x: Seq<char>|
            x != first@ ==> count_in(strings_view(r@).drop_first(), x) == count_in(
                strings_view(names@),
                x,
            )),
{
    let ghost names_sv = strings_view(names@);
    let mut others: Vec<String> = Vec::new();
    let mut found = false;
    let mut i: usize = 0;
    while i < names.len()
        invariant
            i <= names@.len(),
            names_sv == strings_view(names@),
            found == (count_in(names_sv.take(i as int), first@) > 0),
            count_in(strings_view(others@), first@) == 0,
            forall|x: Seq<char>|
                x != first@ ==> #[trigger] count_in(strings_view(others@), x) == count_in(
                    names_sv.take(i as int),
                    x,
                ),
        decreases names@.len() - i,
    {
        let ghost others0 = strings_view(others@);
        let hit = str_equal(names[i].as_str(), first);
        if hit {
            found = true;
        } else {
            let name = names[i].clone();
            others.push(name);
        }
        proof {
            assert(names_sv.take(i + 1) =~= names_sv.take(i as int).push(names_sv[i as int]));
            assert forall|x: Seq<char>| true implies #[trigger] count_in(names_sv.take(i + 1), x)
                == count_in(names_sv.take(i as int), x) + (if names_sv[i as int] == x {
                1nat
            } else {
                0nat
            }) by {
                lemma_count_push(names_sv.take(i as int), names_sv[i as int], x);
            }
            if !hit {
                assert(strings_view(others@) =~= others0.push(names_sv[i as int]));
                assert forall|x: Seq<char>| true implies #[trigger] count_in(
                    strings_view(others@),
                    x,
                ) == count_in(others0, x) + (if names_sv[i as int] == x {
                    1nat
                } else {
                    0nat
                }) by {
                    lemma_count_push(others0, names_sv[i as int], x);
                }
            }
        }
        i += 1;
    }
    proof {
        assert(names_sv.take(names_sv.len() as int) =~= names_sv);
    }
    let sorted = sort_names(others);
    let ghost sorted_sv = strings_view(sorted@);
    if found {
        let mut r = sorted;
        let head = first.to_owned();
        r.insert(0, head);
        proof {
            assert(strings_view(r@)[0] == first@);
            assert(strings_view(r@).drop_first() =~= sorted_sv);
        }
        r
    } else {
        proof {
            assert(count_in(names_sv, first@) == 0);
            assert(forall|x: Seq<char>| #[trigger] count_in(sorted_sv, x) == count_in(
                names_sv,
                x,
            ));
        }
        sorted
    }
}

/// The lines of the section body joined with single newlines.
pub open spec fn joined_lines(lines: Seq<Seq<char>>) -> Seq<char>
    decreases lines.len(),
{
    if lines.len() == 0 {
        Seq::empty()
    } else if lines.len() == 1 {
        lines[0]
    } else {
        lines[0] + "\n"@ + joined_lines(lines.drop_first())
    }
}

/// Joining one more line appends a newline and the line.
pub proof fn lemma_joined_lines_push(lines: Seq<Seq<char>>, e: Seq<char>)
    ensures
        joined_lines(lines.push(e)) == (if lines.len() == 0 {
            e
        } else {
            joined_lines(lines) + "\n"@ + e
        }),
    decreases lines.len(),
{
    if lines.len() == 0 {
        assert(lines.push(e)[0] == e);
    } else {
        assert(lines.push(e)[0] == lines[0]);
        assert(lines.push(e).drop_first() =~= lines.drop_first().push(e));
        lemma_joined_lines_push(lines.drop_first(), e);
        if lines.len() == 1 {
            assert(lines.drop_first().len() == 0);
            assert(joined_lines(lines) == lines[0]);
        } else {
            assert((lines[0] + "\n"@ + (joined_lines(lines.drop_first()) + "\n"@ + e)) =~= (
            lines[0] + "\n"@ + joined_lines(lines.drop_first())) + "\n"@ + e);
        }
    }
}

/// Joins lines with single newlines between them.
pub fn join_lines(lines: &Vec<String>) -> (r: String)
    ensures
        r@ == joined_lines(strings_view(lines@)),
{
    let ghost sv = strings_view(lines@);
    let mut out = String::new();
    let mut i: usize = 0;
    proof {
        assert(sv.take(0) =~= Seq::<Seq<char>>::empty());
    }
    while i < lines.len()
        invariant
            i <= lines@.len(),
            sv == strings_view(lines@),
            out@ == joined_lines(sv.take(i as int)),
        decreases lines@.len() - i,
    {
        if i > 0 {
            out.append("\n");
        }
        out.append(lines[i].as_str());
        proof {
            assert(sv.take(i + 1) =~= sv.take(i as int).push(sv[i as int]));
            lemma_joined_lines_push(sv.take(i as int), sv[i as int]);
        }
        i += 1;
    }
    proof {
        assert(sv.take(sv.len() as int) =~= sv);
    }
    out
}

} // verus!
