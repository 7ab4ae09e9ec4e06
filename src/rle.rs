//! Run-length transform: a delta stream becomes a list of four-byte records
//! `[marker, value, count low byte, count high byte]`, one per run of equal
//! values, with runs longer than `u16::MAX` split over several records.
use vstd::prelude::*;
use crate::delta::{byte_of, signed_of, to_byte, to_signed, lemma_byte_signed};
use crate::error::QresError;

verus! {

broadcast use vstd::seq_lib::group_seq_properties;

/// The byte that opens every record.
pub const RUN_MARKER: u8 = 0xFF;

/// The largest count that one record holds.
pub const MAX_RUN: u16 = 0xFFFF;

/// The runs of `d`, grouped greedily from the left: each run is a value and
/// its count, and a run stops at a new value or at `MAX_RUN` copies.
pub open spec fn runs_spec(d: Seq<i8>) -> Seq<(i8, nat)>
    decreases d.len(),
{
    if d.len() == 0 {
        Seq::empty()
    } else {
        let r = runs_spec(d.drop_last());
        let v = d.last();
        if r.len() > 0 && r.last().0 == v && r.last().1 < MAX_RUN as nat {
            r.update(r.len() - 1, (v, r.last().1 + 1))
        } else {
            r.push((v, 1nat))
        }
    }
}

/// The four bytes of one record.
pub open spec fn record_bytes(run: (i8, nat)) -> Seq<u8> {
    seq![RUN_MARKER, byte_of(run.0), (run.1 % 256) as u8, (run.1 / 256) as u8]
}

/// The records of a list of runs, one after the other.
pub open spec fn records_bytes(rs: Seq<(i8, nat)>) -> Seq<u8> {
    rs.map_values(|run: (i8, nat)| record_bytes(run)).flatten()
}

/// The copies of the value that one run stands for.
pub open spec fn run_values(run: (i8, nat)) -> Seq<i8> {
    Seq::new(run.1, |_i: int| run.0)
}

/// The values that a list of runs stands for.
pub open spec fn expand(rs: Seq<(i8, nat)>) -> Seq<i8> {
    rs.map_values(|run: (i8, nat)| run_values(run)).flatten()
}

/// The run-length encoding of a delta stream.
pub open spec fn rle_encode_spec(d: Seq<i8>) -> Seq<u8> {
    records_bytes(runs_spec(d))
}

/// Puts `head` in front of a decoded tail, if there is one.
pub open spec fn prepend(head: Seq<i8>, tail: Option<Seq<i8>>) -> Option<Seq<i8>> {
    match tail {
        Some(t) => Some(head + t),
        None => None,
    }
}

/// Decodes records from the left. A marker opens a record of four bytes,
/// whose count may be zero; any other byte stands for itself. `None` when a
/// record is cut short.
pub open spec fn rle_decode_spec(s: Seq<u8>) -> Option<Seq<i8>>
    decreases s.len(),
{
    if s.len() == 0 {
        Some(Seq::empty())
    } else if s[0] == RUN_MARKER {
        if s.len() < 4 {
            None
        } else {
            prepend(
                run_values((signed_of(s[1]), (s[2] + 256 * s[3]) as nat)),
                rle_decode_spec(s.skip(4)),
            )
        }
    } else {
        prepend(seq![signed_of(s[0])], rle_decode_spec(s.skip(1)))
    }
}

/// Every run counts at least one and at most `MAX_RUN` values.
pub open spec fn runs_bounded(rs: Seq<(i8, nat)>) -> bool {
    forall|k: int| 0 <= k < rs.len() ==> 1 <= #[trigger] rs[k].1 <= MAX_RUN as nat
}

/// The records of one more run follow the records before it.
proof fn lemma_records_push(rs: Seq<(i8, nat)>, run: (i8, nat))
    ensures
        records_bytes(rs.push(run)) == records_bytes(rs) + record_bytes(run),
{
    let f = |run: (i8, nat)| record_bytes(run);
    assert(rs.push(run).map_values(f) =~= rs.map_values(f).push(record_bytes(run)));
    rs.map_values(f).lemma_flatten_push(record_bytes(run));
}

/// The values of one more run follow the values before it.
proof fn lemma_expand_push(rs: Seq<(i8, nat)>, run: (i8, nat))
    ensures
        expand(rs.push(run)) == expand(rs) + run_values(run),
{
    let f = |run: (i8, nat)| run_values(run);
    assert(rs.push(run).map_values(f) =~= rs.map_values(f).push(run_values(run)));
    rs.map_values(f).lemma_flatten_push(run_values(run));
}

/// Grouping into runs loses nothing, and every run is within bounds.
pub proof fn lemma_runs_expand(d: Seq<i8>)
    ensures
        expand(runs_spec(d)) == d,
        runs_bounded(runs_spec(d)),
    decreases d.len(),
{
    if d.len() == 0 {
        assert(expand(runs_spec(d)) =~= d);
    } else {
        let p = d.drop_last();
        lemma_runs_expand(p);
        let r = runs_spec(p);
        let v = d.last();
        if r.len() > 0 && r.last().0 == v && r.last().1 < MAX_RUN as nat {
            let front = r.drop_last();
            assert(r =~= front.push(r.last()));
            assert(r.update(r.len() - 1, (v, r.last().1 + 1)) =~= front.push((v, r.last().1 + 1)));
            lemma_expand_push(front, r.last());
            lemma_expand_push(front, (v, r.last().1 + 1));
            assert(run_values((v, r.last().1 + 1)) =~= run_values(r.last()).push(v));
        } else {
            lemma_expand_push(r, (v, 1nat));
            assert(run_values((v, 1nat)) =~= seq![v]);
        }
        assert(d =~= p.push(v));
    }
}

/// Decoding the records of bounded runs gives back the values they stand for.
pub proof fn lemma_decode_records(rs: Seq<(i8, nat)>)
    requires
        runs_bounded(rs),
    ensures
        rle_decode_spec(records_bytes(rs)) == Some(expand(rs)),
    decreases rs.len(),
{
    let f = |run: (i8, nat)| record_bytes(run);
    let g = |run: (i8, nat)| run_values(run);
    if rs.len() == 0 {
        assert(records_bytes(rs) =~= Seq::<u8>::empty());
        assert(expand(rs) =~= Seq::<i8>::empty());
    } else {
        let rest = rs.drop_first();
        assert(runs_bounded(rest)) by {
            assert forall|k: int| 0 <= k < rest.len() implies 1 <= #[trigger] rest[k].1
                <= MAX_RUN as nat by {
                assert(rest[k] == rs[k + 1]);
            }
        }
        lemma_decode_records(rest);
        assert(rs.map_values(f).drop_first() =~= rest.map_values(f));
        assert(rs.map_values(g).drop_first() =~= rest.map_values(g));
        let s = records_bytes(rs);
        let run = rs[0];
        assert(s == record_bytes(run) + records_bytes(rest));
        assert(expand(rs) == run_values(run) + expand(rest));
        assert(s.skip(4) =~= records_bytes(rest));
        let n = run.1;
        assert(1 <= n <= 65535) by {
            assert(1 <= rs[0].1 <= MAX_RUN as nat);
        }
        assert((n % 256) + 256 * (n / 256) == n) by (nonlinear_arith);
        assert(((n % 256) as u8) + 256 * ((n / 256) as u8) == n) by (nonlinear_arith)
            requires
                (n % 256) + 256 * (n / 256) == n,
                n <= 65535,
        ;
        lemma_byte_signed(run.0);
        assert((signed_of(s[1]), (s[2] + 256 * s[3]) as nat) == run);
    }
}

/// Decoding the encoding of any delta stream gives the stream back.
pub proof fn lemma_rle_round_trip(d: Seq<i8>)
    ensures
        rle_decode_spec(rle_encode_spec(d)) == Some(d),
{
    lemma_runs_expand(d);
    lemma_decode_records(runs_spec(d));
}

/// Appends the record of `count` copies of `value`.
fn push_record(out: &mut Vec<u8>, value: i8, count: u16)
    ensures
        final(out)@ == old(out)@ + record_bytes((value, count as nat)),
{
    out.push(RUN_MARKER);
    out.push(to_byte(value));
    out.push((count % 256) as u8);
    out.push((count / 256) as u8);
    assert(final(out)@ =~= old(out)@ + record_bytes((value, count as nat)));
}

/// Encodes a delta stream as run-length records.
pub fn rle_encode(deltas: &[i8]) -> (r: Vec<u8>)
    ensures
        r@ == rle_encode_spec(deltas@),
{
    let mut result: Vec<u8> = Vec::new();
    if deltas.len() == 0 {
        assert(records_bytes(Seq::empty()) =~= Seq::<u8>::empty());
        return result;
    }
    let mut current: i8 = deltas[0];
    let mut count: u16 = 1;
    let ghost mut done: Seq<(i8, nat)> = Seq::empty();
    proof {
        let first = deltas@.subrange(0, 1);
        assert(first.drop_last() =~= Seq::<i8>::empty());
        assert(runs_spec(first.drop_last()) =~= Seq::<(i8, nat)>::empty());
        assert(runs_spec(first) =~= done.push((current, 1nat)));
        assert(records_bytes(done) =~= Seq::<u8>::empty());
    }
    let mut i: usize = 1;
    while i < deltas.len()
        invariant
            1 <= i <= deltas.len(),
            1 <= count,
            runs_spec(deltas@.subrange(0, i as int)) == done.push((current, count as nat)),
            result@ == records_bytes(done),
        decreases deltas.len() - i,
    {
        let val = deltas[i];
        proof {
            let next = deltas@.subrange(0, i + 1);
            assert(next.drop_last() =~= deltas@.subrange(0, i as int));
            assert(next.last() == val);
        }
        if val == current && count < MAX_RUN {
            proof {
                let r = done.push((current, count as nat));
                assert(r.update(r.len() - 1, (val, (count + 1) as nat)) =~= done.push(
                    (current, (count + 1) as nat),
                ));
            }
            count += 1;
        } else {
            push_record(&mut result, current, count);
            proof {
                lemma_records_push(done, (current, count as nat));
                done = done.push((current, count as nat));
            }
            current = val;
            count = 1;
        }
        i += 1;
    }
    push_record(&mut result, current, count);
    proof {
        lemma_records_push(done, (current, count as nat));
        assert(deltas@.subrange(0, deltas.len() as int) =~= deltas@);
    }
    result
}

/// Putting `a` then `b` in front of a tail is putting `a + b` in front.
proof fn lemma_prepend_assoc(a: Seq<i8>, b: Seq<i8>, t: Option<Seq<i8>>)
    ensures
        prepend(a, prepend(b, t)) == prepend(a + b, t),
{
    if t is Some {
        assert(a + (b + t->0) =~= (a + b) + t->0);
    }
}

/// One step of decoding at position `i`: a record when a marker opens four
/// bytes, else a literal byte.
proof fn lemma_decode_step(s: Seq<u8>, i: int)
    requires
        0 <= i < s.len(),
    ensures
        s[i] == RUN_MARKER && s.len() - i >= 4 ==> rle_decode_spec(s.skip(i)) == prepend(
            run_values((signed_of(s[i + 1]), (s[i + 2] + 256 * s[i + 3]) as nat)),
            rle_decode_spec(s.skip(i + 4)),
        ),
        s[i] == RUN_MARKER && s.len() - i < 4 ==> rle_decode_spec(s.skip(i)) is None,
        s[i] != RUN_MARKER ==> rle_decode_spec(s.skip(i)) == prepend(
            seq![signed_of(s[i])],
            rle_decode_spec(s.skip(i + 1)),
        ),
{
    let rest = s.skip(i);
    if s.len() - i >= 4 {
        assert(rest.skip(4) =~= s.skip(i + 4));
    }
    assert(rest.skip(1) =~= s.skip(i + 1));
}

/// Appends `count` copies of `value`.
fn push_copies(out: &mut Vec<i8>, value: i8, count: u16)
    ensures
        final(out)@ == old(out)@ + Seq::new(count as nat, |_j: int| value),
{
    let mut k: u16 = 0;
    while k < count
        invariant
            k <= count,
            out@ == old(out)@ + Seq::new(k as nat, |_j: int| value),
        decreases count - k,
    {
        out.push(value);
        k += 1;
        assert(out@ =~= old(out)@ + Seq::new(k as nat, |_j: int| value));
    }
}

/// Decodes run-length records back into a delta stream.
pub fn rle_decode(encoded: &[u8]) -> (r: Result<Vec<i8>, QresError>)
    ensures
        match rle_decode_spec(encoded@) {
            Some(d) => r matches Ok(v) && v@ == d,
            None => r == Err::<Vec<i8>, QresError>(QresError::TruncatedRunRecord),
        },
{
    let mut result: Vec<i8> = Vec::new();
    let mut i: usize = 0;
    let n = encoded.len();
    while i < n
        invariant
            i <= n,
            n == encoded.len(),
            rle_decode_spec(encoded@) == prepend(result@, rle_decode_spec(encoded@.skip(i as int))),
        decreases n - i,
    {
        proof {
            lemma_decode_step(encoded@, i as int);
        }
        let ghost before = result@;
        if encoded[i] == RUN_MARKER {
            if n - i < 4 {
                return Err(QresError::TruncatedRunRecord);
            }
            let val = to_signed(encoded[i + 1]);
            let count: u16 = encoded[i + 2] as u16 + 256 * (encoded[i + 3] as u16);
            push_copies(&mut result, val, count);
            proof {
                let run = run_values(
                    (signed_of(encoded@[i + 1]), (encoded@[i + 2] + 256 * encoded@[i + 3]) as nat),
                );
                assert(run =~= Seq::new(count as nat, |_j: int| val));
                lemma_prepend_assoc(before, run, rle_decode_spec(encoded@.skip(i + 4)));
            }
            i += 4;
        } else {
            result.push(to_signed(encoded[i]));
            proof {
                assert(result@ =~= before + seq![signed_of(encoded@[i as int])]);
                lemma_prepend_assoc(
                    before,
                    seq![signed_of(encoded@[i as int])],
                    rle_decode_spec(encoded@.skip(i + 1)),
                );
            }
            i += 1;
        }
    }
    assert(encoded@.skip(n as int) =~= Seq::<u8>::empty());
    assert(result@ + Seq::<i8>::empty() =~= result@);
    Ok(result)
}

} // verus!
