//! Ignore-file line maintenance: deciding which entries a file still
//! lacks, and which lines survive when the engine's own entries are taken
//! out again.  A line counts as holding an entry when it equals the entry
//! after trimming surrounding whitespace.

use vstd::prelude::*;
use vstd::string::StrSliceExecFns;

use crate::strings::str_equal;
use crate::strings::strings_view;

verus! {

broadcast use vstd::std_specs::vec::group_vec_axioms, vstd::seq::group_seq_axioms;

/// The whitespace characters trimmed from line ends.
pub open spec fn is_space(c: char) -> bool {
    c == ' ' || c == '\t' || c == '\r' || c == '\n'
}

/// The sequence without its leading whitespace.
pub open spec fn strip_start(s: Seq<char>) -> Seq<char>
    decreases s.len(),
{
    if s.len() > 0 && is_space(s[0]) {
        strip_start(s.drop_first())
    } else {
        s
    }
}

/// The sequence without its trailing whitespace.
pub open spec fn strip_end(s: Seq<char>) -> Seq<char>
    decreases s.len(),
{
    if s.len() > 0 && is_space(s[s.len() - 1]) {
        strip_end(s.drop_last())
    } else {
        s
    }
}

/// The sequence without leading and trailing whitespace.
pub open spec fn trimmed(s: Seq<char>) -> Seq<char> {
    strip_end(strip_start(s))
}

/// Where the leading whitespace ends, stripping starts.
proof fn lemma_strip_start_at(s: Seq<char>, k: int)
    requires
        0 <= k <= s.len(),
        forall|j: int| 0 <= j < k ==> is_space(s[j]),
        k < s.len() ==> !is_space(s[k]),
    ensures
        strip_start(s) == s.subrange(k, s.len() as int),
    decreases k,
{
    if k == 0 {
        assert(s.subrange(0, s.len() as int) =~= s);
    } else {
        lemma_strip_start_at(s.drop_first(), k - 1);
        assert(forall|j: int| 0 <= j < s.len() - 1 ==> s.drop_first()[j] == s[j + 1]);
        assert(s.drop_first().subrange(k - 1, s.len() - 1) =~= s.subrange(k, s.len() as int));
    }
}

/// Where the trailing whitespace begins, stripping ends.
proof fn lemma_strip_end_at(s: Seq<char>, e: int)
    requires
        0 <= e <= s.len(),
        forall|j: int| e <= j < s.len() ==> is_space(s[j]),
        e > 0 ==> !is_space(s[e - 1]),
    ensures
        strip_end(s) == s.subrange(0, e),
    decreases s.len() - e,
{
    if e == s.len() {
        if s.len() > 0 && is_space(s[s.len() - 1]) {
            lemma_strip_end_at(s.drop_last(), e - 1);
            assert(s.drop_last() =~= s.subrange(0, s.len() - 1));
            assert(s.drop_last().subrange(0, e - 1) =~= s.subrange(0, e - 1));
            assert(is_space(s[e - 1]));
        } else {
            assert(s.subrange(0, e) =~= s);
        }
    } else {
        lemma_strip_end_at(s.drop_last(), e);
        assert(s.drop_last() =~= s.subrange(0, s.len() - 1));
        assert(s.drop_last().subrange(0, e) =~= s.subrange(0, e));
    }
}

/// Whether `c` is trimmed as whitespace.
fn space_test(c: char) -> (r: bool)
    ensures
        r == is_space(c),
{
    c == ' ' || c == '\t' || c == '\r' || c == '\n'
}

/// The line without surrounding whitespace.
pub fn trim_line(s: &str) -> (r: String)
    ensures
        r@ == trimmed(s@),
{
    let len = s.unicode_len();
    let mut start: usize = 0;
    while start < len && space_test(s.get_char(start))
        invariant
            start <= len,
            len == s@.len(),
            forall|j: int| 0 <= j < start ==> is_space(s@[j]),
        decreases len - start,
    {
        start += 1;
    }
    let mut end: usize = len;
    while end > start && space_test(s.get_char(end - 1))
        invariant
            start <= end <= len,
            len == s@.len(),
            forall|j: int| end <= j < len ==> is_space(s@[j]),
        decreases end,
    {
        end -= 1;
    }
    proof {
        lemma_strip_start_at(s@, start as int);
        let t = s@.subrange(start as int, len as int);
        lemma_strip_end_at(t, end - start);
        assert(t.subrange(0, end - start) =~= s@.subrange(start as int, end as int));
    }
    let sub = s.substring_char(start, end);
    sub.to_owned()
}

/// Some line of the file trims to exactly `entry`.
pub open spec fn line_present(lines: Seq<Seq<char>>, entry: Seq<char>) -> bool {
    exists|i: int| 0 <= i < lines.len() && trimmed(#[trigger] lines[i]) == entry
}

/// The entries no line of the file holds yet, in entry order.
pub open spec fn missing_spec(lines: Seq<Seq<char>>, entries: Seq<Seq<char>>) -> Seq<Seq<char>>
    decreases entries.len(),
{
    if entries.len() == 0 {
        Seq::empty()
    } else {
        (if line_present(lines, entries[0]) {
            Seq::<Seq<char>>::empty()
        } else {
            seq![entries[0]]
        }) + missing_spec(lines, entries.drop_first())
    }
}

/// Checking one more entry appends it when it is missing.
proof fn lemma_missing_push(lines: Seq<Seq<char>>, entries: Seq<Seq<char>>, e: Seq<char>)
    ensures
        missing_spec(lines, entries.push(e)) == missing_spec(lines, entries) + (if line_present(
            lines,
            e,
        ) {
            Seq::<Seq<char>>::empty()
        } else {
            seq![e]
        }),
    decreases entries.len(),
{
    if entries.len() == 0 {
        assert(entries.push(e)[0] == e);
        assert(entries =~= Seq::<Seq<char>>::empty());
        assert(entries.push(e).drop_first() =~= entries);
        assert(missing_spec(lines, entries) == Seq::<Seq<char>>::empty());
        assert(missing_spec(lines, entries) + (if line_present(lines, e) {
            Seq::<Seq<char>>::empty()
        } else {
            seq![e]
        }) =~= missing_spec(lines, entries.push(e)));
    } else {
        assert(entries.push(e)[0] == entries[0]);
        assert(entries.push(e).drop_first() =~= entries.drop_first().push(e));
        lemma_missing_push(lines, entries.drop_first(), e);
        assert(missing_spec(lines, entries) + (if line_present(lines, e) {
            Seq::<Seq<char>>::empty()
        } else {
            seq![e]
        }) =~= missing_spec(lines, entries.push(e)));
    }
}

/// Whether some line of the file trims to `entry`.
fn present_test(lines: &Vec<String>, entry: &str) -> (r: bool)
    ensures
        r == line_present(strings_view(lines@), entry@),
{
    let ghost lv = strings_view(lines@);
    let mut i: usize = 0;
    while i < lines.len()
        invariant
            i <= lines@.len(),
            lv == strings_view(lines@),
            forall|j: int| 0 <= j < i ==> trimmed(lv[j]) != entry@,
        decreases lines@.len() - i,
    {
        let t = trim_line(lines[i].as_str());
        if str_equal(t.as_str(), entry) {
            assert(trimmed(lv[i as int]) == entry@);
            return true;
        }
        i += 1;
    }
    false
}

/// The entries the file still lacks, in entry order; the caller appends
/// exactly these.
pub fn missing_entries(lines: &Vec<String>, entries: &Vec<String>) -> (r: Vec<String>)
    ensures
        strings_view(r@) == missing_spec(strings_view(lines@), strings_view(entries@)),
{
    let ghost lv = strings_view(lines@);
    let ghost ev = strings_view(entries@);
    let mut out: Vec<String> = Vec::new();
    let mut i: usize = 0;
    proof {
        assert(ev.take(0) =~= Seq::<Seq<char>>::empty());
        assert(strings_view(out@) =~= missing_spec(lv, ev.take(0)));
    }
    while i < entries.len()
        invariant
            i <= entries@.len(),
            lv == strings_view(lines@),
            ev == strings_view(entries@),
            strings_view(out@) == missing_spec(lv, ev.take(i as int)),
        decreases entries@.len() - i,
    {
        let ghost out0 = strings_view(out@);
        let hit = present_test(lines, entries[i].as_str());
        if !hit {
            let e = entries[i].clone();
            out.push(e);
            proof {
                assert(strings_view(out@) =~= out0.push(ev[i as int]));
            }
        }
        proof {
            assert(ev.take(i + 1) =~= ev.take(i as int).push(ev[i as int]));
            lemma_missing_push(lv, ev.take(i as int), ev[i as int]);
            assert(strings_view(out@) =~= missing_spec(lv, ev.take(i + 1)));
        }
        i += 1;
    }
    proof {
        assert(ev.take(ev.len() as int) =~= ev);
    }
    out
}

/// Whether the trimmed line equals one of the patterns.
pub open spec fn matches_pattern(line: Seq<char>, patterns: Seq<Seq<char>>) -> bool {
    exists|i: int| 0 <= i < patterns.len() && trimmed(line) == #[trigger] patterns[i]
}

/// The lines that survive cleanup: those matching no pattern, in order.
pub open spec fn retained_spec(lines: Seq<Seq<char>>, patterns: Seq<Seq<char>>) -> Seq<Seq<char>>
    decreases lines.len(),
{
    if lines.len() == 0 {
        Seq::empty()
    } else {
        (if matches_pattern(lines[0], patterns) {
            Seq::<Seq<char>>::empty()
        } else {
            seq![lines[0]]
        }) + retained_spec(lines.drop_first(), patterns)
    }
}

/// Checking one more line appends it when it survives.
proof fn lemma_retained_push(lines: Seq<Seq<char>>, e: Seq<char>, patterns: Seq<Seq<char>>)
    ensures
        retained_spec(lines.push(e), patterns) == retained_spec(lines, patterns) + (if
        matches_pattern(e, patterns) {
            Seq::<Seq<char>>::empty()
        } else {
            seq![e]
        }),
    decreases lines.len(),
{
    if lines.len() == 0 {
        assert(lines.push(e)[0] == e);
        assert(lines =~= Seq::<Seq<char>>::empty());
        assert(lines.push(e).drop_first() =~= lines);
        assert(retained_spec(lines, patterns) == Seq::<Seq<char>>::empty());
        assert(retained_spec(lines, patterns) + (if matches_pattern(e, patterns) {
            Seq::<Seq<char>>::empty()
        } else {
            seq![e]
        }) =~= retained_spec(lines.push(e), patterns));
    } else {
        assert(lines.push(e)[0] == lines[0]);
        assert(lines.push(e).drop_first() =~= lines.drop_first().push(e));
        lemma_retained_push(lines.drop_first(), e, patterns);
        assert(retained_spec(lines, patterns) + (if matches_pattern(e, patterns) {
            Seq::<Seq<char>>::empty()
        } else {
            seq![e]
        }) =~= retained_spec(lines.push(e), patterns));
    }
}

/// The lines left after taking the engine's own patterns out.
pub fn retained_lines(lines: &Vec<String>, patterns: &Vec<String>) -> (r: Vec<String>)
    ensures
        strings_view(r@) == retained_spec(strings_view(lines@), strings_view(patterns@)),
{
    let ghost lv = strings_view(lines@);
    let ghost pv = strings_view(patterns@);
    let mut out: Vec<String> = Vec::new();
    let mut i: usize = 0;
    proof {
        assert(lv.take(0) =~= Seq::<Seq<char>>::empty());
        assert(strings_view(out@) =~= retained_spec(lv.take(0), pv));
    }
    while i < lines.len()
        invariant
            i <= lines@.len(),
            lv == strings_view(lines@),
            pv == strings_view(patterns@),
            strings_view(out@) == retained_spec(lv.take(i as int), pv),
        decreases lines@.len() - i,
    {
        let ghost out0 = strings_view(out@);
        let t = trim_line(lines[i].as_str());
        let mut hit = false;
        let mut k: usize = 0;
        while k < patterns.len()
            invariant
                k <= patterns@.len(),
                pv == strings_view(patterns@),
                t@ == trimmed(lv[i as int]),
                i < lines@.len(),
                lv == strings_view(lines@),
                hit ==> matches_pattern(lv[i as int], pv),
                !hit ==> forall|j: int| 0 <= j < k ==> trimmed(lv[i as int]) != pv[j],
            decreases patterns@.len() - k,
        {
            if str_equal(t.as_str(), patterns[k].as_str()) {
                hit = true;
                assert(trimmed(lv[i as int]) == pv[k as int]);
            }
            k += 1;
        }
        if !hit {
            let line = lines[i].clone();
            out.push(line);
            proof {
                assert(strings_view(out@) =~= out0.push(lv[i as int]));
            }
        }
        proof {
            assert(lv.take(i + 1) =~= lv.take(i as int).push(lv[i as int]));
            lemma_retained_push(lv.take(i as int), lv[i as int], pv);
            assert(strings_view(out@) =~= retained_spec(lv.take(i + 1), pv));
        }
        i += 1;
    }
    proof {
        assert(lv.take(lv.len() as int) =~= lv);
    }
    out
}

} // verus!
