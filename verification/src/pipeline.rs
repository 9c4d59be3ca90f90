use vstd::prelude::*;

verus! {

use crate::record::{
    ApacheLogEntry,
    RecordModel,
    model_le,
    model_eq,
    model_lt,
    lemma_model_le_total,
    lemma_model_le_antisym,
    lemma_model_le_trans,
};
use crate::parse::parse_line;

/// The models of a sequence of records.
pub open spec fn models_of(s: Seq<ApacheLogEntry>) -> Seq<RecordModel> {
    Seq::new(s.len(), |i: int| s[i]@)
}

/// The records of the lines that parse, in input order: a line that the
/// parser rejects contributes nothing.
pub open spec fn parsed_models(lines: Seq<String>) -> Seq<RecordModel>
    decreases lines.len(),
{
    if lines.len() == 0 {
        Seq::empty()
    } else {
        let rest = parsed_models(lines.drop_last());
        match parse_line(lines.last()@) {
            Ok(m) => rest.push(m),
            Err(_) => rest,
        }
    }
}

/// Non-decreasing under the total record order.
pub open spec fn sorted_by_le(s: Seq<RecordModel>) -> bool {
    forall|i: int, j: int| 0 <= i < j < s.len() ==> model_le(s[i], s[j])
}

/// No two positions hold structurally equal records.
pub open spec fn pairwise_distinct(s: Seq<RecordModel>) -> bool {
    forall|i: int, j: int| 0 <= i < j < s.len() ==> !model_eq(s[i], s[j])
}

/// Whether some record in `s` is structurally equal to `m`.
pub open spec fn model_in(m: RecordModel, s: Seq<RecordModel>) -> bool {
    exists|k: int| 0 <= k < s.len() && model_eq(s[k], m)
}

/// A line that the parser rejects contributes nothing to the parsed stream.
pub proof fn lemma_rejected_line_contributes_nothing(lines: Seq<String>, l: String)
    requires
        parse_line(l@) is Err,
    ensures
        parsed_models(lines.push(l)) == parsed_models(lines),
{
    assert(lines.push(l).drop_last() =~= lines);
    assert(lines.push(l).last() == l);
}

/// Parses every line, keeping the records of the lines that parse, in input
/// order; lines that the parser rejects are dropped silently.
pub fn parse_lines(lines: &Vec<String>) -> (r: Vec<ApacheLogEntry>)
    ensures
        models_of(r@) == parsed_models(lines@),
{
    let mut out: Vec<ApacheLogEntry> = Vec::new();
    let mut i: usize = 0;
    proof {
        assert(lines@.take(0) =~= Seq::<String>::empty());
        assert(models_of(out@) =~= parsed_models(lines@.take(0)));
    }
    while i < lines.len()
        invariant
            i <= lines@.len(),
            models_of(out@) == parsed_models(lines@.take(i as int)),
        decreases lines@.len() - i,
    {
        proof {
            assert(lines@.take(i as int + 1).drop_last() =~= lines@.take(i as int));
            assert(lines@.take(i as int + 1).last() == lines@[i as int]);
        }
        let ghost prev = out@;
        match ApacheLogEntry::try_from_line(lines[i].as_str()) {
            Ok(rec) => {
                out.push(rec);
                proof {
                    assert(models_of(out@) =~= models_of(prev).push(rec@));
                }
            },
            Err(_) => {},
        }
        i += 1;
    }
    proof {
        assert(lines@.take(lines@.len() as int) =~= lines@);
    }
    out
}

/// Decides the strict order: `a` comes strictly before `b`.
fn rec_lt(a: &ApacheLogEntry, b: &ApacheLogEntry) -> (r: bool)
    ensures
        r == model_lt(a@, b@),
{
    a.le(b) && !(a == b)
}

/// Inserts `x` at its place in a sorted, duplicate-free vector, or drops it
/// when a structurally equal record is already present.
fn insert_record(out: &mut Vec<ApacheLogEntry>, x: ApacheLogEntry)
    requires
        sorted_by_le(models_of(old(out)@)),
        pairwise_distinct(models_of(old(out)@)),
    ensures
        sorted_by_le(models_of(final(out)@)),
        pairwise_distinct(models_of(final(out)@)),
        model_in(x@, models_of(final(out)@)),
        forall|m: RecordModel|
            model_in(m, models_of(old(out)@)) ==> model_in(m, models_of(final(out)@)),
        forall|k: int|
            0 <= k < final(out)@.len() ==> final(out)@[k] == x || old(out)@.contains(
                final(out)@[k],
            ),
{
    let ghost orig = out@;
    let ghost om = models_of(orig);
    let mut i: usize = 0;
    while i < out.len() && rec_lt(&out[i], &x)
        invariant
            out@ == orig,
            om == models_of(orig),
            i <= orig.len(),
            forall|k: int| 0 <= k < i ==> model_lt(om[k], x@),
        decreases orig.len() - i,
    {
        proof {
            assert(om[i as int] == orig[i as int]@);
            assert(model_lt(out@[i as int]@, x@));
        }
        i += 1;
    }
    if i < out.len() && out[i] == x {
        proof {
            assert(model_eq(om[i as int], x@));
            assert(model_in(x@, models_of(out@)));
        }
    } else {
        proof {
            if i < orig.len() {
                lemma_model_le_total(om[i as int], x@);
                assert(model_le(x@, om[i as int]) && !model_eq(x@, om[i as int]));
            }
        }
        out.insert(i, x);
        proof {
            let nm = models_of(out@);
            assert(out@ == orig.insert(i as int, x));
            assert forall|k: int| 0 <= k < nm.len() implies nm[k] == (if k < i {
                om[k]
            } else if k == i {
                x@
            } else {
                om[k - 1]
            }) by {
                if k < i {
                    assert(out@[k] == orig[k]);
                } else if k > i {
                    assert(out@[k] == orig[k - 1]);
                }
            }
            assert forall|p: int, q: int| 0 <= p < q < nm.len() implies model_le(nm[p], nm[q])
                && !model_eq(nm[p], nm[q]) by {
                if q < i {
                    // two old records below the insertion point
                } else if p < i && q == i {
                    // old record against the new one: strictly below it
                } else if p < i && q > i {
                    // two old records around the insertion point
                } else if p == i {
                    // the new record against an old one at or above the point
                    if q > i + 1 {
                        lemma_model_le_trans(x@, om[i as int], om[q - 1]);
                        if model_eq(nm[p], nm[q]) {
                            assert(model_eq(x@, om[q - 1]));
                            assert(model_le(om[i as int], om[q - 1]));
                            assert(model_le(om[i as int], x@));
                            lemma_model_le_antisym(x@, om[i as int]);
                            assert(false);
                        }
                    }
                } else {
                    // two old records above the insertion point
                }
            }
            assert(model_eq(nm[i as int], x@));
            assert(model_in(x@, nm));
            assert forall|m: RecordModel| model_in(m, om) implies model_in(m, nm) by {
                let k = choose|k: int| 0 <= k < om.len() && model_eq(om[k], m);
                if k < i {
                    assert(model_eq(nm[k], m));
                } else {
                    assert(model_eq(nm[k + 1], m));
                }
            }
            assert forall|k: int| 0 <= k < out@.len() implies out@[k] == x || orig.contains(
                out@[k],
            ) by {
                if k < i {
                    assert(out@[k] == orig[k]);
                } else if k > i {
                    assert(out@[k] == orig[k - 1]);
                }
            }
        }
    }
}

/// Merges two record streams into one stream that is sorted ascending under
/// the total record order, holds no structural duplicates, contains every
/// input record at least once, and nothing else.
pub fn merge_unique_sorted(a: Vec<ApacheLogEntry>, b: Vec<ApacheLogEntry>) -> (r: Vec<
    ApacheLogEntry,
>)
    ensures
        sorted_by_le(models_of(r@)),
        pairwise_distinct(models_of(r@)),
        forall|k: int| 0 <= k < a@.len() ==> model_in(a@[k]@, models_of(r@)),
        forall|k: int| 0 <= k < b@.len() ==> model_in(b@[k]@, models_of(r@)),
        forall|k: int| 0 <= k < r@.len() ==> a@.contains(r@[k]) || b@.contains(r@[k]),
{
    let ghost orig_a = a@;
    let ghost orig_b = b@;
    let mut a = a;
    let mut b = b;
    let mut out: Vec<ApacheLogEntry> = Vec::new();
    proof {
        assert(orig_a.take(orig_a.len() as int) =~= orig_a);
        assert(models_of(out@) =~= Seq::<RecordModel>::empty());
    }
    while a.len() > 0
        invariant
            a@.len() <= orig_a.len(),
            a@ == orig_a.take(a@.len() as int),
            sorted_by_le(models_of(out@)),
            pairwise_distinct(models_of(out@)),
            forall|k: int|
                a@.len() <= k < orig_a.len() ==> model_in(orig_a[k]@, models_of(out@)),
            forall|k: int| 0 <= k < out@.len() ==> orig_a.contains(out@[k]),
        decreases a@.len(),
    {
        let ghost alen = a@.len() as int;
        proof {
            assert(a@[alen - 1] == orig_a[alen - 1]);
            assert(orig_a.take(alen).subrange(0, alen - 1) =~= orig_a.take(alen - 1));
        }
        let x = a.pop().unwrap();
        insert_record(&mut out, x);
    }
    while b.len() > 0
        invariant
            b@.len() <= orig_b.len(),
            b@ == orig_b.take(b@.len() as int),
            sorted_by_le(models_of(out@)),
            pairwise_distinct(models_of(out@)),
            forall|k: int| 0 <= k < orig_a.len() ==> model_in(orig_a[k]@, models_of(out@)),
            forall|k: int|
                b@.len() <= k < orig_b.len() ==> model_in(orig_b[k]@, models_of(out@)),
            forall|k: int|
                0 <= k < out@.len() ==> orig_a.contains(out@[k]) || orig_b.contains(out@[k]),
        decreases b@.len(),
    {
        let ghost blen = b@.len() as int;
        proof {
            assert(b@[blen - 1] == orig_b[blen - 1]);
            assert(orig_b.take(blen).subrange(0, blen - 1) =~= orig_b.take(blen - 1));
            assert(orig_b.take(orig_b.len() as int) =~= orig_b);
        }
        let x = b.pop().unwrap();
        insert_record(&mut out, x);
    }
    out
}

/// The whole computation behind the program: parse both line streams,
/// dropping rejected lines silently, and merge the records into one
/// duplicate-free stream sorted ascending by timestamp (ties broken
/// structurally).
pub fn merge_logs(lines1: &Vec<String>, lines2: &Vec<String>) -> (r: Vec<ApacheLogEntry>)
    ensures
        sorted_by_le(models_of(r@)),
        forall|i: int, j: int|
            0 <= i < j < r@.len() ==> r@[i]@.epoch_seconds <= r@[j]@.epoch_seconds,
        pairwise_distinct(models_of(r@)),
        forall|m: RecordModel| parsed_models(lines1@).contains(m) ==> model_in(m, models_of(r@)),
        forall|m: RecordModel| parsed_models(lines2@).contains(m) ==> model_in(m, models_of(r@)),
        forall|k: int|
            0 <= k < r@.len() ==> parsed_models(lines1@).contains(r@[k]@) || parsed_models(
                lines2@,
            ).contains(r@[k]@),
{
    let va = parse_lines(lines1);
    let vb = parse_lines(lines2);
    let ghost ma = va@;
    let ghost mb = vb@;
    let r = merge_unique_sorted(va, vb);
    proof {
        assert forall|i: int, j: int|
            0 <= i < j < r@.len() implies r@[i]@.epoch_seconds <= r@[j]@.epoch_seconds by {
            assert(model_le(models_of(r@)[i], models_of(r@)[j]));
        }
        assert forall|m: RecordModel|
            parsed_models(lines1@).contains(m) implies model_in(m, models_of(r@)) by {
            let k = choose|k: int|
                0 <= k < parsed_models(lines1@).len() && parsed_models(lines1@)[k] == m;
            assert(models_of(ma)[k] == m);
            assert(ma[k]@ == m);
            assert(model_in(ma[k]@, models_of(r@)));
        }
        assert forall|m: RecordModel|
            parsed_models(lines2@).contains(m) implies model_in(m, models_of(r@)) by {
            let k = choose|k: int|
                0 <= k < parsed_models(lines2@).len() && parsed_models(lines2@)[k] == m;
            assert(models_of(mb)[k] == m);
            assert(mb[k]@ == m);
            assert(model_in(mb[k]@, models_of(r@)));
        }
        assert forall|k: int|
            0 <= k < r@.len() implies parsed_models(lines1@).contains(r@[k]@) || parsed_models(
            lines2@,
        ).contains(r@[k]@) by {
            if ma.contains(r@[k]) {
                let k2 = choose|k2: int| 0 <= k2 < ma.len() && ma[k2] == r@[k];
                assert(models_of(ma)[k2] == r@[k]@);
            } else {
                let k2 = choose|k2: int| 0 <= k2 < mb.len() && mb[k2] == r@[k];
                assert(models_of(mb)[k2] == r@[k]@);
            }
        }
    }
    r
}

} // verus!
