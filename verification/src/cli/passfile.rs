//! The two-pass statistics file: a series of records, each a 4-byte
//! big-endian length followed by that many bytes. The first record read is
//! the summary, the others are frame data.
use vstd::prelude::*;

verus! {

/// Largest record that the second pass reads back.
pub const MAX_PASS_RECORD: usize = 64;

/// Rate-control data exchanged between the passes.
#[derive(Clone, Debug)]
pub enum PassData {
    /// Summary of the whole first pass.
    Summary(Vec<u8>),
    /// Statistics of one frame.
    Frame(Vec<u8>),
}

/// The abstract value of a [`PassData`]: whether it is the summary, and
/// its bytes.
pub open spec fn pass_data_view(d: PassData) -> (bool, Seq<u8>) {
    match d {
        PassData::Summary(b) => (true, b@),
        PassData::Frame(b) => (false, b@),
    }
}

/// The four bytes of `n`, most significant first.
pub open spec fn be_bytes(n: u32) -> Seq<u8> {
    seq![
        (n / 0x100_0000) as u8,
        ((n / 0x1_0000) % 0x100) as u8,
        ((n / 0x100) % 0x100) as u8,
        (n % 0x100) as u8,
    ]
}

/// The number that four bytes give, most significant first.
pub open spec fn be_value(b: Seq<u8>) -> int {
    b[0] * 0x100_0000 + b[1] * 0x1_0000 + b[2] * 0x100 + b[3]
}

/// A record as the first pass writes it: the length of `data`, cut to 32
/// bits, then `data`.
pub open spec fn record_bytes(data: Seq<u8>) -> Seq<u8> {
    be_bytes((data.len() % 0x1_0000_0000) as u32) + data
}

/// Where the first pass writes a record: a summary goes at the start of the
/// file, a frame where the previous record ended.
#[derive(Clone, Debug)]
pub struct PassRecord {
    /// Seek to the start of the file before writing.
    pub rewind: bool,
    /// The bytes to write.
    pub bytes: Vec<u8>,
}

/// The record that the first pass writes for `d`.
pub fn pass_record(d: &PassData) -> (r: PassRecord)
    ensures
        r.rewind == pass_data_view(*d).0,
        r.bytes@ == record_bytes(pass_data_view(*d).1),
{
    let (rewind, buf) = match d {
        PassData::Summary(b) => (true, b),
        PassData::Frame(b) => (false, b),
    };
    let blen: usize = buf.len();
    let len = blen as u32;
    let mut bytes: Vec<u8> = Vec::new();
    bytes.push((len / 0x100_0000) as u8);
    bytes.push(((len / 0x1_0000) % 0x100) as u8);
    bytes.push(((len / 0x100) % 0x100) as u8);
    bytes.push((len % 0x100) as u8);
    let mut i: usize = 0;
    while i < buf.len()
        invariant
            i <= buf@.len(),
            bytes@ == be_bytes(len) + buf@.take(i as int),
        decreases buf@.len() - i,
    {
        bytes.push(buf[i]);
        i = i + 1;
        assert(bytes@ =~= be_bytes(len) + buf@.take(i as int));
    }
    assert(buf@.take(i as int) =~= buf@);
    assert(len == ((blen as u64) % 0x1_0000_0000u64) as u32) by (bit_vector)
        requires
            len == blen as u32,
    ;
    PassRecord { rewind, bytes }
}

/// The records that reading a statistics file finds, or `None` where the
/// reader fails: a length above [`MAX_PASS_RECORD`], or fewer bytes left
/// than the length says. Reading stops, without failing, when fewer than
/// four bytes are left.
pub open spec fn parse_records(data: Seq<u8>) -> Option<Seq<Seq<u8>>>
    decreases data.len(),
{
    if data.len() < 4 {
        Some(Seq::empty())
    } else {
        let n = be_value(data.take(4));
        if n > MAX_PASS_RECORD || data.len() - 4 < n {
            None
        } else {
            match parse_records(data.skip(4 + n)) {
                Some(rest) => Some(seq![data.subrange(4, 4 + n)] + rest),
                None => None,
            }
        }
    }
}

/// What the second pass makes of the records read: the first is the
/// summary, every other one frame data.
pub open spec fn records_as_pass_data(records: Seq<Seq<u8>>) -> Seq<(bool, Seq<u8>)> {
    Seq::new(records.len(), |i: int| (i == 0, records[i]))
}

/// Reading the records from `pos` on, as [`parse_records`] does from the
/// start.
fn parse_from(data: &[u8], pos: usize, out: &mut Vec<PassData>) -> (ok: bool)
    requires
        pos <= data@.len(),
    ensures
        ok == (parse_records(data@.skip(pos as int)) is Some),
        final(out)@.map_values(|d: PassData| pass_data_view(d)) == old(out)@.map_values(
            |d: PassData| pass_data_view(d),
        ) + Seq::new(
            parse_prefix(data@.skip(pos as int)).len(),
            |i: int| (old(out)@.len() + i == 0, parse_prefix(data@.skip(pos as int))[i]),
        ),
    decreases data@.len() - pos,
{
    let ghost rest = data@.skip(pos as int);
    let ghost before = out@.map_values(|d: PassData| pass_data_view(d));
    if data.len() - pos < 4 {
        assert(parse_records(rest) == Some(Seq::<Seq<u8>>::empty()));
        assert(before + Seq::new(
            0,
            |i: int| (old(out)@.len() + i == 0, Seq::<u8>::empty()),
        ) =~= before);
        return true;
    }
    let n: usize = (data[pos] as usize) * 0x100_0000 + (data[pos + 1] as usize) * 0x1_0000
        + (data[pos + 2] as usize) * 0x100 + (data[pos + 3] as usize);
    assert(rest.take(4) =~= data@.subrange(pos as int, pos + 4));
    assert(n == be_value(rest.take(4)));
    if n > MAX_PASS_RECORD || data.len() - pos - 4 < n {
        assert(parse_prefix(rest) == Seq::<Seq<u8>>::empty());
        assert(before + Seq::new(
            0,
            |i: int| (old(out)@.len() + i == 0, Seq::<u8>::empty()),
        ) =~= before);
        return false;
    }
    let mut buf: Vec<u8> = Vec::new();
    let start = pos + 4;
    let mut i: usize = 0;
    while i < n
        invariant
            i <= n,
            start + n <= data.len(),
            buf@ == data@.subrange(start as int, start + i),
        decreases n - i,
    {
        buf.push(data[start + i]);
        i = i + 1;
        assert(buf@ =~= data@.subrange(start as int, start + i));
    }
    assert(buf@ =~= rest.subrange(4, 4 + n));
    let first = out.len() == 0;
    if first {
        out.push(PassData::Summary(buf));
    } else {
        out.push(PassData::Frame(buf));
    }
    let ghost mid = out@.map_values(|d: PassData| pass_data_view(d));
    assert(mid =~= before.push((old(out)@.len() == 0, rest.subrange(4, 4 + n))));
    assert(data@.skip(start + n) =~= rest.skip(4 + n));
    let ok = parse_from(data, start + n, out);
    let ghost tail = parse_prefix(rest.skip(4 + n));
    let ghost all = parse_prefix(rest);
    assert(all == seq![rest.subrange(4, 4 + n)] + tail);
    assert(out@.map_values(|d: PassData| pass_data_view(d)) =~= before + Seq::new(
        all.len(),
        |k: int| (old(out)@.len() + k == 0, all[k]),
    ));
    ok
}

/// The records that reading a statistics file finds before it fails, or
/// all of them where it does not fail.
pub open spec fn parse_prefix(data: Seq<u8>) -> Seq<Seq<u8>>
    decreases data.len(),
{
    if data.len() < 4 {
        Seq::empty()
    } else {
        let n = be_value(data.take(4));
        if n > MAX_PASS_RECORD || data.len() - 4 < n {
            Seq::empty()
        } else {
            seq![data.subrange(4, 4 + n)] + parse_prefix(data.skip(4 + n))
        }
    }
}

/// Where reading does not fail, the records before a failure are all of
/// them.
pub proof fn lemma_parse_prefix_complete(data: Seq<u8>)
    requires
        parse_records(data) is Some,
    ensures
        parse_records(data) == Some(parse_prefix(data)),
    decreases data.len(),
{
    if data.len() >= 4 {
        let n = be_value(data.take(4));
        lemma_parse_prefix_complete(data.skip(4 + n));
    }
}

/// Whether the second pass reads the statistics file `data` through
/// without failing.
pub fn pass_file_readable(data: &[u8]) -> (ok: bool)
    ensures
        ok == (parse_records(data@) is Some),
{
    let mut scratch: Vec<PassData> = Vec::new();
    assert(data@.skip(0) =~= data@);
    parse_from(data, 0, &mut scratch)
}

/// The rate-control data that the second pass reads from the statistics
/// file `data`: the first record as the summary, the others as frame data.
pub fn read_pass_file(data: &[u8]) -> (out: Vec<PassData>)
    requires
        parse_records(data@) is Some,
    ensures
        out@.map_values(|d: PassData| pass_data_view(d)) == records_as_pass_data(
            parse_records(data@)->0,
        ),
{
    let (out, ok) = read_pass_records(data);
    proof {
        lemma_parse_prefix_complete(data@);
    }
    out
}

/// The rate-control data that the second pass reads from the statistics
/// file `data` before reading fails, as [`read_pass_file`] gives it, and
/// whether reading went through to the end without failing.
pub fn read_pass_records(data: &[u8]) -> (r: (Vec<PassData>, bool))
    ensures
        r.0@.map_values(|d: PassData| pass_data_view(d)) == records_as_pass_data(parse_prefix(data@)),
        r.1 == (parse_records(data@) is Some),
{
    let mut out: Vec<PassData> = Vec::new();
    assert(data@.skip(0) =~= data@);
    let ok = parse_from(data, 0, &mut out);
    assert(out@.map_values(|d: PassData| pass_data_view(d)) =~= records_as_pass_data(
        parse_prefix(data@),
    ));
    (out, ok)
}

/// Records written one after the other.
pub open spec fn concat_records(rs: Seq<Seq<u8>>) -> Seq<u8>
    decreases rs.len(),
{
    if rs.len() == 0 {
        Seq::empty()
    } else {
        record_bytes(rs[0]) + concat_records(rs.drop_first())
    }
}

/// Every record is at most [`MAX_PASS_RECORD`] bytes long.
pub open spec fn records_fit(rs: Seq<Seq<u8>>) -> bool {
    forall|i: int| 0 <= i < rs.len() ==> (#[trigger] rs[i]).len() <= MAX_PASS_RECORD
}

/// Records of at most [`MAX_PASS_RECORD`] bytes, written one after the
/// other, read back as they were written.
pub proof fn lemma_records_round_trip(rs: Seq<Seq<u8>>)
    requires
        records_fit(rs),
    ensures
        parse_records(concat_records(rs)) == Some(rs),
    decreases rs.len(),
{
    let data = concat_records(rs);
    if rs.len() == 0 {
        assert(parse_records(data) == Some(Seq::<Seq<u8>>::empty()));
        assert(rs =~= Seq::<Seq<u8>>::empty());
    } else {
        let r0 = rs[0];
        let rest = rs.drop_first();
        assert(records_fit(rest)) by {
            assert forall|i: int| 0 <= i < rest.len() implies (#[trigger] rest[i]).len() <= MAX_PASS_RECORD by {
                assert(rest[i] == rs[i + 1]);
            }
        }
        lemma_records_round_trip(rest);
        let n = r0.len();
        assert(n <= 64);
        assert(data.take(4) =~= be_bytes((n % 0x1_0000_0000) as u32));
        assert(be_value(data.take(4)) == n);
        assert(data.subrange(4, 4 + n as int) =~= r0);
        assert(data.skip(4 + n as int) =~= concat_records(rest));
        assert(seq![r0] + rest =~= rs);
    }
}

/// The file image after writing `b` at offset `pos` of `f`: what lies
/// beyond the written bytes stays.
pub open spec fn write_at(f: Seq<u8>, pos: int, b: Seq<u8>) -> Seq<u8> {
    f.take(pos) + b + if pos + b.len() < f.len() {
        f.skip(pos + b.len())
    } else {
        Seq::empty()
    }
}

/// The file image and write offset after the first pass wrote the records
/// of `ds` (summary flag and bytes) from image `f` and offset `pos`, each as
/// [`pass_record`] gives it.
pub open spec fn write_pass_data(f: Seq<u8>, pos: int, ds: Seq<(bool, Seq<u8>)>) -> (Seq<u8>, int)
    decreases ds.len(),
{
    if ds.len() == 0 {
        (f, pos)
    } else {
        let (f1, p1) = write_pass_data(f, pos, ds.drop_last());
        let d = ds.last();
        let at = if d.0 {
            0
        } else {
            p1
        };
        (write_at(f1, at, record_bytes(d.1)), at + record_bytes(d.1).len())
    }
}

/// Frame records written at the end of the file one after the other
/// append their bytes.
pub proof fn lemma_frames_append(f: Seq<u8>, frames: Seq<Seq<u8>>)
    ensures
        write_pass_data(f, f.len() as int, frames.map_values(|b: Seq<u8>| (false, b)))
            == (f + concat_records(frames), (f.len() + concat_records(frames).len()) as int),
    decreases frames.len(),
{
    let ds = frames.map_values(|b: Seq<u8>| (false, b));
    if frames.len() > 0 {
        let init = frames.drop_last();
        assert(ds.drop_last() =~= init.map_values(|b: Seq<u8>| (false, b)));
        lemma_frames_append(f, init);
        lemma_concat_records_push(init, frames.last());
        assert(frames =~= init.push(frames.last()));
        let f1 = f + concat_records(init);
        assert(write_at(f1, f1.len() as int, record_bytes(frames.last())) =~= f1 + record_bytes(
            frames.last(),
        ));
        assert(f1 + record_bytes(frames.last()) =~= f + concat_records(frames));
    } else {
        assert(concat_records(frames) =~= Seq::<u8>::empty());
        assert(f + Seq::<u8>::empty() =~= f);
    }
}

/// Adding a record at the end adds its bytes at the end.
pub proof fn lemma_concat_records_push(rs: Seq<Seq<u8>>, r: Seq<u8>)
    ensures
        concat_records(rs.push(r)) == concat_records(rs) + record_bytes(r),
    decreases rs.len(),
{
    if rs.len() == 0 {
        assert(rs.push(r).drop_first() =~= Seq::<Seq<u8>>::empty());
        assert(rs.push(r)[0] == r);
        assert(concat_records(Seq::<Seq<u8>>::empty()) == Seq::<u8>::empty());
        assert(concat_records(rs.push(r)) == record_bytes(r) + Seq::<u8>::empty());
        assert(concat_records(rs.push(r)) =~= concat_records(rs) + record_bytes(r));
    } else {
        lemma_concat_records_push(rs.drop_first(), r);
        assert(rs.push(r).drop_first() =~= rs.drop_first().push(r));
        assert(rs.push(r)[0] == rs[0]);
        assert(concat_records(rs.push(r)) == record_bytes(rs[0]) + concat_records(rs.drop_first().push(r)));
        assert(concat_records(rs) == record_bytes(rs[0]) + concat_records(rs.drop_first()));
        assert(concat_records(rs.push(r)) =~= concat_records(rs) + record_bytes(r));
    }
}

/// What the two passes promise each other: when the first pass sends a
/// summary, then frame data, then a final summary of the same length, into
/// an empty file, all records at most [`MAX_PASS_RECORD`] bytes, the second
/// pass reads the final summary first, then the frame data in order.
pub proof fn lemma_two_pass_file(first: Seq<u8>, frames: Seq<Seq<u8>>, last: Seq<u8>)
    requires
        first.len() == last.len(),
        last.len() <= MAX_PASS_RECORD,
        records_fit(frames),
    ensures
        ({
            let sent = seq![(true, first)] + frames.map_values(|b: Seq<u8>| (false, b)) + seq![
                (true, last),
            ];
            let file = write_pass_data(Seq::empty(), 0, sent).0;
            parse_records(file) == Some(seq![last] + frames)
                && records_as_pass_data(seq![last] + frames) == seq![(true, last)]
                + frames.map_values(|b: Seq<u8>| (false, b))
        }),
{
    let fr = frames.map_values(|b: Seq<u8>| (false, b));
    let sent = seq![(true, first)] + fr + seq![(true, last)];
    let head = seq![(true, first)];
    // The first summary goes at the start of the empty file.
    assert(head.drop_last() =~= Seq::<(bool, Seq<u8>)>::empty());
    let f0 = record_bytes(first);
    assert(write_pass_data(Seq::empty(), 0, head) == (f0, f0.len() as int)) by {
        assert(head.last() == (true, first));
        assert(write_pass_data(Seq::empty(), 0, head.drop_last()) == (Seq::<u8>::empty(), 0int));
        assert(write_at(Seq::<u8>::empty(), 0, f0) =~= f0);
    }
    // The frames follow it.
    lemma_frames_append(f0, frames);
    lemma_write_pass_data_append(Seq::empty(), 0, head, fr);
    let mid = f0 + concat_records(frames);
    assert(write_pass_data(Seq::empty(), 0, head + fr) == (mid, mid.len() as int));
    // The last summary overwrites the first.
    assert(sent.drop_last() =~= head + fr);
    assert(sent.last() == (true, last));
    let file = write_pass_data(Seq::empty(), 0, sent).0;
    let l = record_bytes(last);
    assert(l.len() == f0.len());
    assert(file == write_at(mid, 0, l));
    assert(file =~= l + concat_records(frames)) by {
        if l.len() < mid.len() {
            assert(mid.skip(l.len() as int) =~= concat_records(frames));
        } else {
            assert(concat_records(frames).len() == 0);
            assert(concat_records(frames) =~= Seq::<u8>::empty());
        }
    }
    let rs = seq![last] + frames;
    assert(records_fit(rs)) by {
        assert forall|i: int| 0 <= i < rs.len() implies (#[trigger] rs[i]).len() <= MAX_PASS_RECORD by {
            if i > 0 {
                assert(rs[i] == frames[i - 1]);
            }
        }
    }
    assert(rs.drop_first() =~= frames);
    assert(concat_records(rs) == l + concat_records(frames));
    lemma_records_round_trip(rs);
    assert(records_as_pass_data(rs) =~= seq![(true, last)] + fr);
}

/// Writing a series of records is writing its first part, then the rest.
pub proof fn lemma_write_pass_data_append(
    f: Seq<u8>,
    pos: int,
    a: Seq<(bool, Seq<u8>)>,
    b: Seq<(bool, Seq<u8>)>,
)
    ensures
        write_pass_data(f, pos, a + b) == write_pass_data(
            write_pass_data(f, pos, a).0,
            write_pass_data(f, pos, a).1,
            b,
        ),
    decreases b.len(),
{
    if b.len() == 0 {
        assert(a + b =~= a);
    } else {
        lemma_write_pass_data_append(f, pos, a, b.drop_last());
        assert((a + b).drop_last() =~= a + b.drop_last());
        assert((a + b).last() == b.last());
    }
}

} // verus!
