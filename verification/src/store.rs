//! The record log and its query engine.
//!
//! A log is plain text: one encoded line per newline-terminated line.
//! Reading splits the text on newlines, discards empty segments, and
//! decodes the remaining lines in file order; the first bad line aborts
//! the whole read. Search scans in the same order and stops at the first
//! record whose value matches.

use vstd::prelude::*;
use vstd::string::{StrSliceExecFns, StringExecFns};
use crate::codec::{Record, DecodeError, decode_spec, line_of, decode, encode};

verus! {

/// The position of the first newline in `t`, or `t.len()` if there is none.
pub open spec fn first_nl(t: Seq<char>) -> nat
    decreases t.len(),
{
    if t.len() == 0 {
        0
    } else if t[0] == '\n' {
        0
    } else {
        1 + first_nl(t.drop_first())
    }
}

/// `first_nl` points at the first newline: nothing before it is a
/// newline, and it is a newline unless it is the end of the text.
pub proof fn lemma_first_nl(t: Seq<char>)
    ensures
        first_nl(t) <= t.len(),
        first_nl(t) < t.len() ==> t[first_nl(t) as int] == '\n',
        forall|j: int| 0 <= j < first_nl(t) ==> t[j] != '\n',
    decreases t.len(),
{
    if t.len() == 0 {
    } else if t[0] == '\n' {
    } else {
        lemma_first_nl(t.drop_first());
        assert(forall|j: int| 1 <= j < first_nl(t) ==> t[j] == t.drop_first()[j - 1]);
    }
}

/// The segments of `t` between newline characters. Every text has at
/// least one segment; a trailing newline contributes a final empty one.
pub open spec fn split_lines(t: Seq<char>) -> Seq<Seq<char>>
    decreases t.len(),
{
    let i = first_nl(t);
    if i >= t.len() {
        seq![t]
    } else {
        seq![t.take(i as int)] + split_lines(t.skip(i as int + 1))
    }
}

/// The records held by a sequence of line segments: empty segments are
/// skipped, every other segment must decode, and the first segment that
/// fails to decode aborts the whole read with its error.
pub open spec fn records_of(segs: Seq<Seq<char>>) -> Result<
    Seq<(Seq<char>, Seq<char>)>,
    DecodeError,
>
    decreases segs.len(),
{
    if segs.len() == 0 {
        Ok(Seq::empty())
    } else if segs[0].len() == 0 {
        records_of(segs.drop_first())
    } else {
        match decode_spec(segs[0]) {
            Err(e) => Err(e),
            Ok(rec) => match records_of(segs.drop_first()) {
                Err(e) => Err(e),
                Ok(rest) => Ok(seq![rec] + rest),
            },
        }
    }
}

/// The records held by a whole log text.
pub open spec fn log_records(t: Seq<char>) -> Result<Seq<(Seq<char>, Seq<char>)>, DecodeError> {
    records_of(split_lines(t))
}

/// The outcome of scanning segments in order for the first record whose
/// value equals `target`: decoding stops at the first match, so segments
/// past it are never inspected.
pub open spec fn search_segs(segs: Seq<Seq<char>>, target: Seq<char>) -> Result<
    Option<(Seq<char>, Seq<char>)>,
    DecodeError,
>
    decreases segs.len(),
{
    if segs.len() == 0 {
        Ok(None)
    } else if segs[0].len() == 0 {
        search_segs(segs.drop_first(), target)
    } else {
        match decode_spec(segs[0]) {
            Err(e) => Err(e),
            Ok(rec) => if rec.1 == target {
                Ok(Some(rec))
            } else {
                search_segs(segs.drop_first(), target)
            },
        }
    }
}

/// The outcome of searching a whole log text.
pub open spec fn log_search(t: Seq<char>, target: Seq<char>) -> Result<
    Option<(Seq<char>, Seq<char>)>,
    DecodeError,
> {
    search_segs(split_lines(t), target)
}

/// The first record of `records` whose value equals `target`, if any.
pub open spec fn first_match(records: Seq<(Seq<char>, Seq<char>)>, target: Seq<char>) -> Option<
    (Seq<char>, Seq<char>),
>
    decreases records.len(),
{
    if records.len() == 0 {
        None
    } else if records[0].1 == target {
        Some(records[0])
    } else {
        first_match(records.drop_first(), target)
    }
}

/// What a successful read of a log yields after one record is appended
/// to it: the prior records with the new pair at the end; a log that
/// already failed to read keeps its error.
pub open spec fn appended_records(
    prev: Result<Seq<(Seq<char>, Seq<char>)>, DecodeError>,
    id: Seq<char>,
    value: Seq<char>,
) -> Result<Seq<(Seq<char>, Seq<char>)>, DecodeError> {
    match prev {
        Ok(records) => Ok(records.push((id, value))),
        Err(e) => Err(e),
    }
}

/// A result of reading, extended at the front by already-read records.
pub open spec fn with_prefix(
    pre: Seq<(Seq<char>, Seq<char>)>,
    r: Result<Seq<(Seq<char>, Seq<char>)>, DecodeError>,
) -> Result<Seq<(Seq<char>, Seq<char>)>, DecodeError> {
    match r {
        Ok(rest) => Ok(pre + rest),
        Err(e) => Err(e),
    }
}

/// Splitting at a known first newline steps the recursion once.
proof fn lemma_split_first(t: Seq<char>, i: int)
    requires
        0 <= i < t.len(),
        t[i] == '\n',
        forall|j: int| 0 <= j < i ==> t[j] != '\n',
    ensures
        split_lines(t) == seq![t.take(i)] + split_lines(t.skip(i + 1)),
{
    lemma_first_nl(t);
    let f = first_nl(t);
    if f < i {
        assert(t[f as int] == '\n');
    }
    if f > i {
        assert(t[i] != '\n');
    }
    assert(f == i);
}

/// A text without newlines is one single segment.
proof fn lemma_split_no_nl(t: Seq<char>)
    requires
        forall|j: int| 0 <= j < t.len() ==> t[j] != '\n',
    ensures
        split_lines(t) == seq![t],
{
    lemma_first_nl(t);
    if first_nl(t) < t.len() {
        assert(t[first_nl(t) as int] == '\n');
    }
}

/// A text that is empty or newline-terminated splits into segments whose
/// last one is empty.
proof fn lemma_split_last_empty(t: Seq<char>)
    requires
        t.len() == 0 || t[t.len() - 1] == '\n',
    ensures
        split_lines(t).len() >= 1,
        split_lines(t).last() == Seq::<char>::empty(),
    decreases t.len(),
{
    lemma_first_nl(t);
    let i = first_nl(t);
    if i >= t.len() {
        if t.len() > 0 {
            assert(t[t.len() - 1] != '\n');
        }
        assert(t =~= Seq::<char>::empty());
        assert(split_lines(t).last() =~= Seq::<char>::empty());
    } else {
        let rest = t.skip(i as int + 1);
        assert(rest.len() == 0 || rest[rest.len() - 1] == '\n');
        lemma_split_last_empty(rest);
        assert(split_lines(t) == seq![t.take(i as int)] + split_lines(rest));
        assert(split_lines(t).last() == split_lines(rest).last());
    }
}

/// Splitting distributes over concatenation at a segment boundary: when
/// `a` is empty or newline-terminated, the segments of `a + b` are the
/// segments of `a` (minus its final empty one) followed by those of `b`.
proof fn lemma_split_concat(a: Seq<char>, b: Seq<char>)
    requires
        a.len() == 0 || a[a.len() - 1] == '\n',
    ensures
        split_lines(a + b) == split_lines(a).drop_last() + split_lines(b),
    decreases a.len(),
{
    lemma_first_nl(a);
    let f = first_nl(a);
    if f >= a.len() {
        if a.len() > 0 {
            assert(a[a.len() - 1] != '\n');
        }
        assert(a + b =~= b);
        assert(split_lines(a) =~= seq![a]);
        assert(split_lines(a).drop_last() =~= Seq::<Seq<char>>::empty());
        assert(split_lines(a).drop_last() + split_lines(b) =~= split_lines(b));
    } else {
        let i = f as int;
        let ab = a + b;
        assert(ab[i] == '\n');
        assert(forall|j: int| 0 <= j < i ==> ab[j] != '\n');
        lemma_split_first(ab, i);
        let arest = a.skip(i + 1);
        assert(arest.len() == 0 || arest[arest.len() - 1] == '\n');
        lemma_split_concat(arest, b);
        assert(ab.take(i) =~= a.take(i));
        assert(ab.skip(i + 1) =~= arest + b);
        lemma_split_last_empty(a);
        assert(split_lines(a) == seq![a.take(i)] + split_lines(arest));
        assert(split_lines(a).drop_last() =~= seq![a.take(i)] + split_lines(arest).drop_last());
        assert(split_lines(ab) =~= split_lines(a).drop_last() + split_lines(b));
    }
}

/// Appending one newline appends one empty segment.
proof fn lemma_split_push_nl(t: Seq<char>)
    ensures
        split_lines(t + seq!['\n']) == split_lines(t).push(Seq::<char>::empty()),
    decreases t.len(),
{
    lemma_first_nl(t);
    let tn = t + seq!['\n'];
    let f = first_nl(t);
    if f >= t.len() {
        assert(tn[t.len() as int] == '\n');
        assert(forall|j: int| 0 <= j < t.len() ==> tn[j] != '\n');
        lemma_split_first(tn, t.len() as int);
        assert(tn.take(t.len() as int) =~= t);
        assert(tn.skip(t.len() as int + 1) =~= Seq::<char>::empty());
        lemma_split_no_nl(Seq::<char>::empty());
        assert(split_lines(t) =~= seq![t]);
        assert(split_lines(tn) =~= split_lines(t).push(Seq::<char>::empty()));
    } else {
        let i = f as int;
        assert(tn[i] == '\n');
        assert(forall|j: int| 0 <= j < i ==> tn[j] != '\n');
        lemma_split_first(tn, i);
        assert(tn.take(i) =~= t.take(i));
        assert(tn.skip(i + 1) =~= t.skip(i + 1) + seq!['\n']);
        lemma_split_push_nl(t.skip(i + 1));
        assert(split_lines(tn) =~= split_lines(t).push(Seq::<char>::empty()));
    }
}

/// Reading segment sequences concatenated: the first sequence's records
/// come first, and its error, if any, wins.
proof fn lemma_records_concat(s1: Seq<Seq<char>>, s2: Seq<Seq<char>>)
    ensures
        records_of(s1 + s2) == (match records_of(s1) {
            Ok(r1) => with_prefix(r1, records_of(s2)),
            Err(e) => Err::<Seq<(Seq<char>, Seq<char>)>, DecodeError>(e),
        }),
    decreases s1.len(),
{
    if s1.len() == 0 {
        assert(s1 + s2 =~= s2);
        assert(records_of(s1) == Ok::<Seq<(Seq<char>, Seq<char>)>, DecodeError>(Seq::empty()));
        match records_of(s2) {
            Ok(rest) => {
                assert(Seq::empty() + rest =~= rest);
            },
            Err(_) => {},
        }
    } else {
        let s12 = s1 + s2;
        assert(s12[0] == s1[0]);
        assert(s12.drop_first() =~= s1.drop_first() + s2);
        lemma_records_concat(s1.drop_first(), s2);
        if s1[0].len() == 0 {
        } else {
            match decode_spec(s1[0]) {
                Err(_) => {},
                Ok(rec) => {
                    match records_of(s1.drop_first()) {
                        Err(_) => {},
                        Ok(r1rest) => {
                            match records_of(s2) {
                                Err(_) => {},
                                Ok(r2) => {
                                    assert(seq![rec] + (r1rest + r2) =~= (seq![rec] + r1rest)
                                        + r2);
                                },
                            }
                        },
                    }
                },
            }
        }
    }
}

/// A final empty segment never changes what is read.
proof fn lemma_records_push_empty(segs: Seq<Seq<char>>)
    ensures
        records_of(segs.push(Seq::<char>::empty())) == records_of(segs),
    decreases segs.len(),
{
    let p = segs.push(Seq::<char>::empty());
    if segs.len() == 0 {
        assert(p[0].len() == 0);
        assert(p.drop_first() =~= Seq::<Seq<char>>::empty());
        assert(records_of(p) == records_of(p.drop_first()));
        assert(records_of(Seq::<Seq<char>>::empty()) == Ok::<
            Seq<(Seq<char>, Seq<char>)>,
            DecodeError,
        >(Seq::empty()));
    } else {
        assert(p[0] == segs[0]);
        assert(p.drop_first() =~= segs.drop_first().push(Seq::<char>::empty()));
        lemma_records_push_empty(segs.drop_first());
        assert(records_of(p.drop_first()) == records_of(segs.drop_first()));
        if segs[0].len() == 0 {
            assert(records_of(p) == records_of(p.drop_first()));
            assert(records_of(segs) == records_of(segs.drop_first()));
        }
    }
}

/// Dropping a final empty segment never changes what is read.
proof fn lemma_records_drop_last_empty(segs: Seq<Seq<char>>)
    requires
        segs.len() >= 1,
        segs.last().len() == 0,
    ensures
        records_of(segs.drop_last()) == records_of(segs),
{
    assert(segs =~~= segs.drop_last().push(Seq::<char>::empty()));
    lemma_records_push_empty(segs.drop_last());
}

/// Empty-line tolerance: a log with a trailing blank line (an extra
/// trailing newline) reads identically to one without it.
pub proof fn lemma_trailing_newline(t: Seq<char>)
    ensures
        log_records(t + seq!['\n']) == log_records(t),
{
    lemma_split_push_nl(t);
    lemma_records_push_empty(split_lines(t));
}

/// Append monotonicity: appending one well-formed encoded line (newline
/// terminated, decoding to `(id, value)`) to a log that is empty or
/// newline-terminated extends a successful read by exactly that record
/// at the end, and leaves a failing read failing the same way.
pub proof fn lemma_append_monotonic(t: Seq<char>, line: Seq<char>, id: Seq<char>, value: Seq<char>)
    ensures
        ((t.len() == 0 || t[t.len() - 1] == '\n') && line.len() > 0 && !line.contains('\n')
            && decode_spec(line) == Ok::<(Seq<char>, Seq<char>), DecodeError>((id, value)))
            ==> log_records(t + line + seq!['\n']) == appended_records(log_records(t), id, value),
{
    if (t.len() == 0 || t[t.len() - 1] == '\n') && line.len() > 0 && !line.contains('\n')
        && decode_spec(line) == Ok::<(Seq<char>, Seq<char>), DecodeError>((id, value)) {
        let entry = line + seq!['\n'];
        assert(t + line + seq!['\n'] =~= t + entry);
        lemma_split_concat(t, entry);
        assert(forall|j: int| 0 <= j < line.len() ==> line[j] != '\n');
        assert(entry[line.len() as int] == '\n');
        assert(forall|j: int| 0 <= j < line.len() ==> entry[j] != '\n');
        lemma_split_first(entry, line.len() as int);
        assert(entry.take(line.len() as int) =~= line);
        assert(entry.skip(line.len() as int + 1) =~= Seq::<char>::empty());
        lemma_split_no_nl(Seq::<char>::empty());
        assert(split_lines(entry) =~~= seq![line, Seq::<char>::empty()]);
        let se = seq![line, Seq::<char>::empty()];
        assert(split_lines(entry) == se);
        assert(se[0] == line);
        assert(se.drop_first() =~~= seq![Seq::<char>::empty()]);
        assert(se.drop_first()[0].len() == 0);
        assert(se.drop_first().drop_first() =~~= Seq::<Seq<char>>::empty());
        assert(records_of(se.drop_first().drop_first()) == Ok::<
            Seq<(Seq<char>, Seq<char>)>,
            DecodeError,
        >(Seq::empty()));
        assert(records_of(se.drop_first()) == Ok::<Seq<(Seq<char>, Seq<char>)>, DecodeError>(
            Seq::empty(),
        ));
        assert(seq![(id, value)] + Seq::<(Seq<char>, Seq<char>)>::empty() =~= seq![(id, value)]);
        assert(records_of(se) == Ok::<Seq<(Seq<char>, Seq<char>)>, DecodeError>(seq![(id, value)]));
        lemma_records_concat(split_lines(t).drop_last(), se);
        lemma_split_last_empty(t);
        lemma_records_drop_last_empty(split_lines(t));
        match log_records(t) {
            Ok(records) => {
                assert(records + seq![(id, value)] =~= records.push((id, value)));
            },
            Err(_) => {},
        }
    }
}

/// First-match semantics: whenever the whole log reads successfully,
/// searching it returns the first record, in file order, whose value is
/// the target, and `None` when no record matches.
proof fn lemma_search_segs_records(segs: Seq<Seq<char>>, target: Seq<char>)
    ensures
        records_of(segs) is Ok ==> search_segs(segs, target) == Ok::<
            Option<(Seq<char>, Seq<char>)>,
            DecodeError,
        >(first_match(records_of(segs)->Ok_0, target)),
    decreases segs.len(),
{
    if segs.len() == 0 {
    } else {
        lemma_search_segs_records(segs.drop_first(), target);
        if records_of(segs) is Ok {
            if segs[0].len() == 0 {
            } else {
                match decode_spec(segs[0]) {
                    Err(_) => {},
                    Ok(rec) => {
                        let rest = records_of(segs.drop_first())->Ok_0;
                        assert(records_of(segs)->Ok_0 == seq![rec] + rest);
                        let all = seq![rec] + rest;
                        assert(all[0] == rec);
                        assert(all.drop_first() =~= rest);
                        if rec.1 == target {
                        } else {
                            assert(first_match(all, target) == first_match(rest, target));
                        }
                    },
                }
            }
        }
    }
}

/// Search correctness over a whole log text: on a log that reads
/// successfully, search yields exactly the first record whose value is
/// the target, or `None` where no record's value is.
pub proof fn lemma_search_correct(t: Seq<char>, target: Seq<char>)
    ensures
        log_records(t) is Ok ==> log_search(t, target) == Ok::<
            Option<(Seq<char>, Seq<char>)>,
            DecodeError,
        >(first_match(log_records(t)->Ok_0, target)),
{
    lemma_search_segs_records(split_lines(t), target);
}

/// What `first_match` returns is the match at the least index: `None`
/// means no record's value is the target; a returned record occurs in
/// the sequence with the target as value, and every earlier record's
/// value differs from the target.
pub proof fn lemma_first_match_characterizes(
    records: Seq<(Seq<char>, Seq<char>)>,
    target: Seq<char>,
)
    ensures
        match first_match(records, target) {
            None => forall|i: int| 0 <= i < records.len() ==> records[i].1 != target,
            Some(rec) => exists|i: int|
                0 <= i < records.len() && records[i] == rec && rec.1 == target && (forall|j: int|
                    0 <= j < i ==> records[j].1 != target),
        },
    decreases records.len(),
{
    if records.len() == 0 {
    } else if records[0].1 == target {
        let rec = records[0];
        assert(0 <= 0 < records.len() && records[0] == rec && rec.1 == target && (forall|j: int|
            0 <= j < 0 ==> records[j].1 != target));
    } else {
        lemma_first_match_characterizes(records.drop_first(), target);
        let rest = records.drop_first();
        match first_match(rest, target) {
            None => {
                assert(forall|i: int| 0 <= i < records.len() ==> records[i].1 != target) by {
                    assert(forall|i: int| 1 <= i < records.len() ==> records[i] == rest[i - 1]);
                }
            },
            Some(rec) => {
                let i = choose|i: int|
                    0 <= i < rest.len() && rest[i] == rec && rec.1 == target && (forall|j: int|
                        0 <= j < i ==> rest[j].1 != target);
                assert(records[i + 1] == rec);
                assert(forall|j: int| 0 <= j < i + 1 ==> records[j].1 != target) by {
                    assert(forall|j: int| 1 <= j < i + 1 ==> records[j] == rest[j - 1]);
                }
                assert(0 <= i + 1 < records.len() && records[i + 1] == rec && rec.1 == target && (
                forall|j: int| 0 <= j < i + 1 ==> records[j].1 != target));
            },
        }
    }
}

/// Splits a log text into its line segments, in order.
fn split_to_lines(text: &str) -> (r: Vec<String>)
    ensures
        r@.map_values(|s: String| s@) == split_lines(text@),
{
    let n = text.unicode_len();
    let mut out: Vec<String> = Vec::new();
    let mut start: usize = 0;
    let mut i: usize = 0;
    proof {
        assert(text@.skip(0) =~= text@);
        assert(out@.map_values(|s: String| s@) + split_lines(text@) =~= split_lines(text@));
    }
    while i < n
        invariant
            n == text@.len(),
            start <= i <= n,
            forall|j: int| start <= j < i ==> text@[j] != '\n',
            split_lines(text@) == out@.map_values(|s: String| s@) + split_lines(
                text@.skip(start as int),
            ),
        decreases n - i,
    {
        if text.get_char(i) == '\n' {
            let seg = text.substring_char(start, i);
            let ghost old_out = out@;
            out.push(seg.to_owned());
            proof {
                let rest = text@.skip(start as int);
                let k = i - start;
                assert(rest[k as int] == text@[i as int]);
                assert(forall|j: int| 0 <= j < k ==> rest[j] == text@[j + start]);
                lemma_split_first(rest, k as int);
                assert(rest.take(k as int) =~= seg@);
                assert(rest.skip(k as int + 1) =~= text@.skip(i as int + 1));
                assert(out@.map_values(|s: String| s@) =~= old_out.map_values(|s: String| s@)
                    + seq![seg@]);
                assert(out@.map_values(|s: String| s@) + split_lines(text@.skip(i as int + 1))
                    =~= old_out.map_values(|s: String| s@) + split_lines(text@.skip(start as int)));
            }
            start = i + 1;
        }
        i += 1;
    }
    let last = text.substring_char(start, n);
    let ghost old_out = out@;
    out.push(last.to_owned());
    proof {
        let rest = text@.skip(start as int);
        assert(forall|j: int| 0 <= j < rest.len() ==> rest[j] == text@[j + start]);
        lemma_split_no_nl(rest);
        assert(rest =~= last@);
        assert(out@.map_values(|s: String| s@) =~= old_out.map_values(|s: String| s@)
            + seq![last@]);
        assert(out@.map_values(|s: String| s@) =~= split_lines(text@));
    }
    out
}

/// Reads every record out of a log text, in file order: empty lines are
/// skipped, and the first line that fails to decode aborts the whole
/// read with its decode error.
pub fn read_all(text: &str) -> (r: Result<Vec<Record>, DecodeError>)
    ensures
        match r {
            Ok(recs) => log_records(text@) == Ok::<Seq<(Seq<char>, Seq<char>)>, DecodeError>(
                recs@.map_values(|rec: Record| rec@),
            ),
            Err(e) => log_records(text@) == Err::<Seq<(Seq<char>, Seq<char>)>, DecodeError>(e),
        },
{
    let lines = split_to_lines(text);
    let ghost segs = lines@.map_values(|s: String| s@);
    let mut recs: Vec<Record> = Vec::new();
    let mut k: usize = 0;
    proof {
        assert(segs.skip(0) =~= segs);
        assert(Seq::<(Seq<char>, Seq<char>)>::empty() + records_of(segs)->Ok_0 =~= records_of(
            segs,
        )->Ok_0);
    }
    while k < lines.len()
        invariant
            segs == lines@.map_values(|s: String| s@),
            segs == split_lines(text@),
            k <= lines.len(),
            records_of(segs) == with_prefix(
                recs@.map_values(|rec: Record| rec@),
                records_of(segs.skip(k as int)),
            ),
        decreases lines.len() - k,
    {
        proof {
            assert(segs.skip(k as int)[0] == segs[k as int]);
            assert(segs.skip(k as int).drop_first() =~= segs.skip(k as int + 1));
        }
        if !lines[k].as_str().is_empty() {
            match decode(lines[k].as_str()) {
                Err(e) => {
                    return Err(e);
                },
                Ok(rec) => {
                    let ghost old_recs = recs@;
                    recs.push(rec);
                    proof {
                        let pre = old_recs.map_values(|r0: Record| r0@);
                        assert(recs@.map_values(|r0: Record| r0@) =~= pre.push(rec@));
                        match records_of(segs.skip(k as int + 1)) {
                            Ok(rest) => {
                                assert(pre + (seq![rec@] + rest) =~= pre.push(rec@) + rest);
                            },
                            Err(_) => {},
                        }
                    }
                },
            }
        }
        k += 1;
    }
    proof {
        assert(segs.skip(lines@.len() as int) =~= Seq::<Seq<char>>::empty());
        assert(recs@.map_values(|rec: Record| rec@) + Seq::<(Seq<char>, Seq<char>)>::empty()
            =~= recs@.map_values(|rec: Record| rec@));
    }
    Ok(recs)
}

/// Scans a log text in file order and returns the first record whose
/// value equals `target` exactly, `None` if no record matches, or the
/// decode error of the first bad line met before any match.
pub fn search(text: &str, target: &str) -> (r: Result<Option<Record>, DecodeError>)
    ensures
        match r {
            Ok(found) => log_search(text@, target@) == Ok::<
                Option<(Seq<char>, Seq<char>)>,
                DecodeError,
            >(
                (match found {
                    Some(rec) => Some(rec@),
                    None => None,
                }),
            ),
            Err(e) => log_search(text@, target@) == Err::<
                Option<(Seq<char>, Seq<char>)>,
                DecodeError,
            >(e),
        },
{
    let target_string = target.to_owned();
    let lines = split_to_lines(text);
    let ghost segs = lines@.map_values(|s: String| s@);
    let mut k: usize = 0;
    proof {
        assert(segs.skip(0) =~= segs);
    }
    while k < lines.len()
        invariant
            segs == lines@.map_values(|s: String| s@),
            segs == split_lines(text@),
            target_string@ == target@,
            k <= lines.len(),
            search_segs(segs, target@) == search_segs(segs.skip(k as int), target@),
        decreases lines.len() - k,
    {
        proof {
            assert(segs.skip(k as int)[0] == segs[k as int]);
            assert(segs.skip(k as int).drop_first() =~= segs.skip(k as int + 1));
        }
        if !lines[k].as_str().is_empty() {
            match decode(lines[k].as_str()) {
                Err(e) => {
                    return Err(e);
                },
                Ok(rec) => {
                    if rec.value == target_string {
                        return Ok(Some(rec));
                    }
                },
            }
        }
        k += 1;
    }
    proof {
        assert(segs.skip(lines@.len() as int) =~= Seq::<Seq<char>>::empty());
    }
    Ok(None)
}

/// Serializes one record into the exact text that `append` adds to the
/// log: the encoded line followed by a single newline terminator.
///
/// Appending it to a log that is empty or newline-terminated extends a
/// successful read by exactly this record at the end — the append
/// monotonicity law, restated here for the entry this call built.
pub fn encoded_entry(identifier: &str, value: &str) -> (r: String)
    ensures
        r@ == line_of(identifier@, value@) + seq!['\n'],
        !identifier@.contains(':') ==> forall|t: Seq<char>|
            (t.len() == 0 || t[t.len() - 1] == '\n') ==> log_records(t + r@) == appended_records(
                log_records(t),
                identifier@,
                value@,
            ),
{
    let mut line = encode(identifier, value);
    let ghost l0 = line@;
    proof {
        reveal_strlit("\n");
        assert("\n"@.len() == 1);
        assert("\n"@[0] == '\n');
    }
    line.append("\n");
    proof {
        assert(line@ =~= l0 + seq!['\n']);
        if !identifier@.contains(':') {
            assert forall|t: Seq<char>| (t.len() == 0 || t[t.len() - 1] == '\n') implies log_records(
                t + line@,
            ) == appended_records(log_records(t), identifier@, value@) by {
                lemma_append_monotonic(t, l0, identifier@, value@);
                assert(t + line@ =~= t + l0 + seq!['\n']);
            }
        }
    }
    line
}

} // verus!
