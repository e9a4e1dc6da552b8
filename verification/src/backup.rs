//! Backup file naming and the timestamped-backup decision.
//!
//! A backup of a file named `f` is a sibling file named `f.backup.<stamp>`,
//! where `<stamp>` is a local timestamp in a sortable lexical format.
//! Rotation (keeping only the newest backups) is in this module as well.

use vstd::prelude::*;
use vstd::string::StringExecFns;

use crate::strings::count_in;
use crate::strings::lemma_count_push;
use crate::strings::lemma_count_remove;
use crate::strings::lemma_lex_irrefl;
use crate::strings::lemma_lex_total;
use crate::strings::lemma_lex_trans;
use crate::strings::lex_leq;
use crate::strings::lex_lt;
use crate::strings::permutation_of;
use crate::strings::str_has_prefix;
use crate::strings::str_lex_lt;

verus! {

/// The infix that separates an original file name from its backup timestamp.
pub open spec fn backup_infix() -> Seq<char> {
    ".backup."@
}

/// `name` is a backup name for a file named `original`:
/// it starts with `original` followed by `.backup.`.
pub open spec fn is_backup_of(name: Seq<char>, original: Seq<char>) -> bool {
    &&& name.len() >= original.len() + 8
    &&& name.subrange(0, original.len() + 8 as int) == original + backup_infix()
}

/// The backup name for `original` under timestamp `stamp`:
/// `<original>.backup.<stamp>`.
pub fn backup_file_name(original: &str, stamp: &str) -> (r: String)
    ensures
        r@ == original@ + backup_infix() + stamp@,
{
    let mut s = original.to_owned();
    s.append(".backup.");
    s.append(stamp);
    proof {
        assert(s@ =~= original@ + backup_infix() + stamp@);
    }
    s
}

/// Relies on chrono's `Local::now` and strftime-style formatting
/// (`%Y%m%d_%H%M%S`): the year is zero-padded to at least four digits and
/// the five two-digit fields and the underscore follow, so the result has
/// at least 15 characters.  The value itself depends on the clock.
#[verifier::external_body]
pub fn local_timestamp() -> (r: String)
    ensures
        r@.len() >= 15,
{
    chrono::Local::now().format("%Y%m%d_%H%M%S").to_string()
}

/// The decision made before an overwrite: a file that exists gets a backup
/// named `<original>.backup.<stamp>`; a file that does not exist needs none.
pub fn backup_target(original: &str, exists: bool, stamp: &str) -> (r: Option<String>)
    ensures
        exists ==> (r matches Some(n) && n@ == original@ + backup_infix() + stamp@),
        !exists ==> r is None,
{
    if exists {
        Some(backup_file_name(original, stamp))
    } else {
        None
    }
}

/// A backup name for `original` stamped with the current local time.
pub fn fresh_backup_name(original: &str) -> (r: String)
    ensures
        exists|stamp: Seq<char>|
            stamp.len() >= 15 && r@ == original@ + backup_infix() + stamp,
        is_backup_of(r@, original@),
{
    let stamp = local_timestamp();
    let r = backup_file_name(original, stamp.as_str());
    proof {
        reveal_strlit(".backup.");
        assert(r@ == original@ + backup_infix() + stamp@ && stamp@.len() >= 15);
        assert(r@.subrange(0, original@.len() + 8 as int) =~= original@ + backup_infix());
    }
    r
}

/// One directory entry considered for rotation: a file name and its
/// last-modified time in whole seconds.
pub struct BackupEntry {
    pub name: String,
    pub modified: u64,
}

impl Clone for BackupEntry {
    /// An exact copy.
    fn clone(&self) -> (res: Self)
        ensures
            res == *self,
    {
        let res = BackupEntry { name: self.name.clone(), modified: self.modified };
        proof {
            assert(res.name == self.name && res.modified == self.modified);
        }
        res
    }
}

/// The (name, modified) pair of an entry.
pub open spec fn entry_view(e: BackupEntry) -> (Seq<char>, u64) {
    (e.name@, e.modified)
}

/// The views of a sequence of entries, elementwise.
pub open spec fn entries_sv(v: Seq<BackupEntry>) -> Seq<(Seq<char>, u64)> {
    Seq::new(
        v.len(),
        |i: int|
            if 0 <= i < v.len() {
                entry_view(v[i])
            } else {
                (Seq::empty(), 0u64)
            },
    )
}

/// `a` is at least as new as `b`: a later modification time wins; equal
/// times fall back to descending lexical name order, the deterministic
/// tie-break (a lexically larger name carries a later timestamp).
pub open spec fn newer_eq(a: (Seq<char>, u64), b: (Seq<char>, u64)) -> bool {
    a.1 > b.1 || (a.1 == b.1 && lex_leq(b.0, a.0))
}

/// Newest first, by time and then by descending name.
pub open spec fn sorted_newest_first(s: Seq<(Seq<char>, u64)>) -> bool {
    forall|i: int, j: int| 0 <= i < j < s.len() ==> newer_eq(#[trigger] s[i], #[trigger] s[j])
}

/// The order is total.
pub proof fn lemma_newer_total(a: (Seq<char>, u64), b: (Seq<char>, u64))
    ensures
        newer_eq(a, b) || newer_eq(b, a),
{
    if a.1 == b.1 {
        lemma_lex_total(a.0, b.0);
    }
}

/// The order is transitive.
pub proof fn lemma_newer_trans(a: (Seq<char>, u64), b: (Seq<char>, u64), c: (Seq<char>, u64))
    requires
        newer_eq(a, b),
        newer_eq(b, c),
    ensures
        newer_eq(a, c),
{
    if a.1 == b.1 && b.1 == c.1 {
        if lex_lt(c.0, b.0) && lex_lt(b.0, a.0) {
            lemma_lex_trans(c.0, b.0, a.0);
        }
    }
}

/// Whether `a` is at least as new as `b`.
pub fn newer_eq_test(a: &BackupEntry, b: &BackupEntry) -> (r: bool)
    ensures
        r == newer_eq(entry_view(*a), entry_view(*b)),
{
    if a.modified > b.modified {
        true
    } else if a.modified < b.modified {
        false
    } else {
        let lt = str_lex_lt(a.name.as_str(), b.name.as_str());
        proof {
            lemma_lex_total(a.name@, b.name@);
            lemma_lex_irrefl(a.name@);
        }
        !lt
    }
}

/// The entries that are backups of `original`, in input order.
pub open spec fn matching_backups(
    s: Seq<(Seq<char>, u64)>,
    original: Seq<char>,
) -> Seq<(Seq<char>, u64)>
    decreases s.len(),
{
    if s.len() == 0 {
        Seq::empty()
    } else {
        (if is_backup_of(s[0].0, original) {
            seq![s[0]]
        } else {
            Seq::empty()
        }) + matching_backups(s.drop_first(), original)
    }
}

/// Filtering one more entry appends it when it matches.
pub proof fn lemma_matching_push(s: Seq<(Seq<char>, u64)>, e: (Seq<char>, u64), original: Seq<char>)
    ensures
        matching_backups(s.push(e), original) == matching_backups(s, original) + (if is_backup_of(
            e.0,
            original,
        ) {
            seq![e]
        } else {
            Seq::<(Seq<char>, u64)>::empty()
        }),
    decreases s.len(),
{
    if s.len() == 0 {
        assert(s.push(e)[0] == e);
        assert(s =~= Seq::<(Seq<char>, u64)>::empty());
        assert(s.push(e).drop_first() =~= s);
        assert(matching_backups(s, original) == Seq::<(Seq<char>, u64)>::empty());
        assert(matching_backups(s, original) + (if is_backup_of(e.0, original) {
            seq![e]
        } else {
            Seq::<(Seq<char>, u64)>::empty()
        }) =~= matching_backups(s.push(e), original));
    } else {
        assert(s.push(e)[0] == s[0]);
        assert(s.push(e).drop_first() =~= s.drop_first().push(e));
        lemma_matching_push(s.drop_first(), e, original);
        assert(matching_backups(s, original) + (if is_backup_of(e.0, original) {
            seq![e]
        } else {
            Seq::<(Seq<char>, u64)>::empty()
        }) =~= matching_backups(s.push(e), original));
    }
}

/// What rotation keeps and what it deletes.
pub struct RotationPlan {
    pub keep: Vec<BackupEntry>,
    pub delete: Vec<BackupEntry>,
}

/// Sorts matching backups newest first and splits them at `max_backups`:
/// the newest `max_backups` are kept, every older one is deleted.
pub fn rotation_plan(entries: Vec<BackupEntry>, original: &str, max_backups: usize) -> (r:
    RotationPlan)
    ensures
        ({
            let m = matching_backups(entries_sv(entries@), original@);
            let keep = entries_sv(r.keep@);
            let del = entries_sv(r.delete@);
            &&& sorted_newest_first(keep + del)
            &&& permutation_of(keep + del, m)
            &&& keep.len() == (if m.len() <= max_backups {
                m.len()
            } else {
                max_backups as nat
            })
            &&& keep.len() + del.len() == m.len()
        }),
{
    let ghost all = entries_sv(entries@);
    let ghost m = matching_backups(all, original@);

    // Select the entries that are backups of `original`.
    let mut pattern = original.to_owned();
    pattern.append(".backup.");
    proof {
        reveal_strlit(".backup.");
    }
    let mut matched: Vec<BackupEntry> = Vec::new();
    let mut i: usize = 0;
    proof {
        assert(all.take(0) =~= Seq::<(Seq<char>, u64)>::empty());
        assert(entries_sv(matched@) =~= matching_backups(all.take(0), original@));
    }
    while i < entries.len()
        invariant
            i <= entries@.len(),
            all == entries_sv(entries@),
            pattern@ == original@ + backup_infix(),
            pattern@.len() == original@.len() + 8,
            entries_sv(matched@) == matching_backups(all.take(i as int), original@),
        decreases entries@.len() - i,
    {
        let ghost matched0 = entries_sv(matched@);
        let hit = str_has_prefix(entries[i].name.as_str(), pattern.as_str());
        proof {
            assert(hit == is_backup_of(all[i as int].0, original@));
        }
        if hit {
            let e = entries[i].clone();
            matched.push(e);
            proof {
                assert(entries_sv(matched@) =~= matched0.push(all[i as int]));
            }
        }
        proof {
            assert(all.take(i + 1) =~= all.take(i as int).push(all[i as int]));
            lemma_matching_push(all.take(i as int), all[i as int], original@);
            assert(entries_sv(matched@) =~= matching_backups(all.take(i + 1), original@));
        }
        i += 1;
    }
    proof {
        assert(all.take(all.len() as int) =~= all);
    }

    // Sort them newest first.
    let mut input = matched;
    let mut sorted: Vec<BackupEntry> = Vec::new();
    proof {
        assert(forall|x: (Seq<char>, u64)|
            #[trigger] count_in(entries_sv(sorted@), x) + count_in(entries_sv(input@), x)
                == count_in(m, x));
    }
    while input.len() > 0
        invariant
            sorted_newest_first(entries_sv(sorted@)),
            forall|i2: int, j2: int|
                0 <= i2 < sorted@.len() && 0 <= j2 < input@.len() ==> newer_eq(
                    #[trigger] entries_sv(sorted@)[i2],
                    #[trigger] entries_sv(input@)[j2],
                ),
            forall|x: (Seq<char>, u64)|
                #[trigger] count_in(entries_sv(sorted@), x) + count_in(entries_sv(input@), x)
                    == count_in(m, x),
        decreases input@.len(),
    {
        let ghost in0 = entries_sv(input@);
        let ghost out0 = entries_sv(sorted@);
        let mut best: usize = 0;
        let mut k: usize = 1;
        while k < input.len()
            invariant
                input@.len() > 0,
                best < k,
                k <= input@.len(),
                in0 == entries_sv(input@),
                forall|j2: int|
                    0 <= j2 < k ==> newer_eq(
                        entries_sv(input@)[best as int],
                        #[trigger] entries_sv(input@)[j2],
                    ),
            decreases input@.len() - k,
        {
            let better = newer_eq_test(&input[k], &input[best]);
            if better && !newer_eq_test(&input[best], &input[k]) {
                proof {
                    assert forall|j2: int| 0 <= j2 < k + 1 implies newer_eq(
                        entries_sv(input@)[k as int],
                        #[trigger] entries_sv(input@)[j2],
                    ) by {
                        if j2 < k {
                            lemma_newer_trans(
                                entries_sv(input@)[k as int],
                                entries_sv(input@)[best as int],
                                entries_sv(input@)[j2],
                            );
                        } else {
                            lemma_newer_total(
                                entries_sv(input@)[k as int],
                                entries_sv(input@)[k as int],
                            );
                        }
                    }
                }
                best = k;
            } else {
                proof {
                    lemma_newer_total(
                        entries_sv(input@)[best as int],
                        entries_sv(input@)[k as int],
                    );
                }
            }
            k += 1;
        }
        let x = input.remove(best);
        sorted.push(x);
        proof {
            assert(entries_sv(input@) =~= in0.remove(best as int));
            assert(entries_sv(sorted@) =~= out0.push(in0[best as int]));
            assert forall|y: (Seq<char>, u64)|
                #[trigger] count_in(entries_sv(sorted@), y) + count_in(entries_sv(input@), y)
                    == count_in(m, y) by {
                lemma_count_push(out0, in0[best as int], y);
                lemma_count_remove(in0, best as int, y);
            }
            assert forall|i2: int, j2: int|
                0 <= i2 < j2 < entries_sv(sorted@).len() implies newer_eq(
                #[trigger] entries_sv(sorted@)[i2],
                #[trigger] entries_sv(sorted@)[j2],
            ) by {
                if j2 < out0.len() {
                    assert(newer_eq(out0[i2], out0[j2]));
                } else {
                    assert(entries_sv(sorted@)[j2] == in0[best as int]);
                }
            }
            assert forall|i2: int, j2: int|
                0 <= i2 < sorted@.len() && 0 <= j2 < input@.len() implies newer_eq(
                #[trigger] entries_sv(sorted@)[i2],
                #[trigger] entries_sv(input@)[j2],
            ) by {
                let a = entries_sv(sorted@)[i2];
                if i2 < out0.len() {
                    assert(newer_eq(a, in0.remove(best as int)[j2]));
                } else {
                    assert(a == in0[best as int]);
                    if j2 < best {
                        assert(in0.remove(best as int)[j2] == in0[j2]);
                        assert(newer_eq(a, in0[j2]));
                    } else {
                        assert(in0.remove(best as int)[j2] == in0[j2 + 1]);
                        assert(newer_eq(a, in0[j2 + 1]));
                    }
                }
            }
        }
    }
    proof {
        assert(forall|x: (Seq<char>, u64)| count_in(entries_sv(input@), x) == 0);
        // The sorted multiset equals m, so the lengths agree.
        lemma_count_length(entries_sv(sorted@), m);
    }

    // Keep the newest `max_backups`; everything older is deleted.
    let cut = if max_backups < sorted.len() {
        max_backups
    } else {
        sorted.len()
    };
    let ghost sorted_sv = entries_sv(sorted@);
    let mut keep = sorted;
    let delete = keep.split_off(cut);
    proof {
        assert(entries_sv(keep@) + entries_sv(delete@) =~= sorted_sv);
    }
    RotationPlan { keep, delete }
}

/// Two sequences with equal counts everywhere have equal length.
proof fn lemma_count_length(a: Seq<(Seq<char>, u64)>, b: Seq<(Seq<char>, u64)>)
    requires
        forall|x: (Seq<char>, u64)| #[trigger] count_in(a, x) == count_in(b, x),
    ensures
        a.len() == b.len(),
    decreases a.len(),
{
    if a.len() == 0 {
        if b.len() > 0 {
            lemma_count_head_positive(b);
            assert(count_in(a, b[0]) == 0);
        }
    } else {
        lemma_count_head_positive(a);
        let x = a[0];
        let ia = choose|i: int| 0 <= i < a.len() && a[i] == x;
        assert(count_in(a, x) > 0);
        assert(count_in(b, x) > 0);
        crate::strings::lemma_count_positive(b, x);
        let ib = choose|i: int| 0 <= i < b.len() && b[i] == x;
        let a2 = a.remove(ia);
        let b2 = b.remove(ib);
        assert forall|y: (Seq<char>, u64)| #[trigger] count_in(a2, y) == count_in(b2, y) by {
            lemma_count_remove(a, ia, y);
            lemma_count_remove(b, ib, y);
        }
        lemma_count_length(a2, b2);
    }
}

/// A non-empty sequence holds its head.
proof fn lemma_count_head_positive(s: Seq<(Seq<char>, u64)>)
    requires
        s.len() > 0,
    ensures
        count_in(s, s[0]) > 0,
{
}

/// Backup rotation bound: with pairwise distinct timestamps, every kept
/// backup is strictly newer than every deleted one.
pub proof fn lemma_rotation_bound(keep: Seq<(Seq<char>, u64)>, del: Seq<(Seq<char>, u64)>)
    requires
        sorted_newest_first(keep + del),
        forall|i: int, j: int|
            0 <= i < j < (keep + del).len() ==> (#[trigger] (keep + del)[i]).1 != (#[trigger] (keep
                + del)[j]).1,
    ensures
        forall|i: int, j: int|
            0 <= i < keep.len() && 0 <= j < del.len() ==> (#[trigger] keep[i]).1 > (
            #[trigger] del[j]).1,
{
    assert forall|i: int, j: int|
        0 <= i < keep.len() && 0 <= j < del.len() implies (#[trigger] keep[i]).1 > (
    #[trigger] del[j]).1 by {
        assert((keep + del)[i] == keep[i]);
        assert((keep + del)[keep.len() + j] == del[j]);
        assert(newer_eq((keep + del)[i], (keep + del)[keep.len() + j]));
        assert((keep + del)[i].1 != (keep + del)[keep.len() + j].1);
    }
}

} // verus!
