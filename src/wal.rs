use vstd::prelude::*;
use crate::block::{read_at, lemma_read_prefix, lemma_block_round_trip, lemma_read_extends, frame, Block, BLOCK_SIZE};
use crate::error::Error;
use crate::manager::{WALManager, MAX_SEGMENTS};

verus! {

/// Bytes in a megabyte, the unit of the segment size option.
pub const MEGABYTE: u64 = 1048576;

/// Options of a local file based log.
#[derive(Debug, Clone, Copy)]
pub struct Options {
    /// Skips the sync after each write: faster, and less durable.
    pub no_sync: bool,
    /// Target size of each segment, in megabytes. A segment is closed once it
    /// reaches this size; the record that reaches it is never split.
    pub segment_size: i32,
}

impl Options {
    /// Options with the given sync policy and segment size.
    pub fn new(no_sync: bool, segment_size: i32) -> (r: Options)
        ensures
            r.no_sync == no_sync,
            r.segment_size == segment_size,
    {
        Options { no_sync, segment_size }
    }

    /// The segment size in bytes.
    pub open spec fn target_bytes(&self) -> nat {
        (self.segment_size * MEGABYTE) as nat
    }
}

impl Default for Options {
    /// Sync after each write, segments of 50 megabytes.
    fn default() -> (r: Options)
        ensures
            r.no_sync == false,
            r.segment_size == 50,
    {
        Options { no_sync: false, segment_size: 50 }
    }
}

/// One segment of the log: an append-only sequence of blocks.
#[derive(Debug)]
pub struct WritableLogFile {
    pub full_path: Vec<u8>,
    pub number: u64,
    pub data: Vec<u8>,
}

impl WritableLogFile {
    /// A segment with the given path and contents, as read back from its file.
    pub fn open(full_path: Vec<u8>, number: u64, data: Vec<u8>) -> (r: Result<Self, Error>)
        ensures
            r matches Ok(f) && f.full_path@ == full_path@ && f.number == number && f.data@
                == data@,
    {
        Ok(WritableLogFile { full_path, number, data })
    }

    /// A new, empty segment.
    pub fn create(full_path: Vec<u8>, number: u64) -> (r: Result<Self, Error>)
        ensures
            r matches Ok(f) && f.full_path@ == full_path@ && f.number == number && f.data@.len()
                == 0,
    {
        Ok(WritableLogFile { full_path, number, data: Vec::new() })
    }

    /// Closes the segment; its contents stay as they are.
    pub fn close(&self) -> (r: Result<(), Error>)
        ensures
            r is Ok,
    {
        Ok(())
    }
}

/// What the caller is to store for one segment: its file's path and full
/// contents, and whether to sync the file afterwards.
#[derive(Debug)]
pub struct WALWritableFile {
    pub full_path: Vec<u8>,
    pub bytes: Vec<u8>,
    pub sync: bool,
}

/// `w` holds the path and bytes of segment `f`, and asks for a sync when
/// `sync` holds.
pub open spec fn describes(w: WALWritableFile, f: WritableLogFile, sync: bool) -> bool {
    &&& w.full_path@ == f.full_path@
    &&& w.bytes@ == f.data@
    &&& w.sync == sync
}

/// Where a logical record is stored: its sequence number, the number of its
/// segment, and its first and past-the-end byte positions there.
#[derive(Debug, Clone, Copy)]
pub struct LocalWALEntry {
    pub id: u64,
    pub segment: u64,
    pub offset: usize,
    pub end: usize,
}

/// The sequence number that comes first after dropping the records up to
/// `up_to` from `len` records numbered from `first`.
pub open spec fn truncated_first(first: nat, len: nat, up_to: nat) -> nat {
    if up_to < first {
        first
    } else if up_to + 1 >= first + len {
        first + len
    } else {
        up_to + 1
    }
}

/// The payloads that read back one after another from `pos` of segment bytes
/// `b`, up to its end or the first fault, and the position where reading
/// stopped.
pub open spec fn scan(b: Seq<u8>, pos: int) -> (Seq<Seq<u8>>, int)
    decreases b.len() - pos,
{
    if pos < 0 || pos >= b.len() {
        (Seq::empty(), pos)
    } else {
        match read_at(b, pos) {
            Ok((p, e)) => if pos < e <= b.len() {
                (seq![p] + scan(b, e).0, scan(b, e).1)
            } else {
                (Seq::empty(), pos)
            },
            Err(_) => (Seq::empty(), pos),
        }
    }
}

/// The payloads recovered from segments, oldest first: each segment is read
/// to its end, and reading stops for good at the first fault.
pub open spec fn recovered(files: Seq<Seq<u8>>) -> Seq<Seq<u8>>
    decreases files.len(),
{
    if files.len() == 0 {
        Seq::empty()
    } else if scan(files[0], 0).1 >= files[0].len() {
        scan(files[0], 0).0 + recovered(files.drop_first())
    } else {
        scan(files[0], 0).0
    }
}

/// The contents of segment files.
pub open spec fn files_data(files: Seq<WritableLogFile>) -> Seq<Seq<u8>> {
    files.map_values(|f: WritableLogFile| f.data@)
}

/// Segment files numbered one after another, within the numbers that names
/// can hold.
pub open spec fn numbers_follow(files: Seq<WritableLogFile>) -> bool {
    &&& forall|j: int| 0 <= j < files.len() ==> #[trigger] files[j].number == files[0].number + j
    &&& files.len() > 0 ==> files[0].number + files.len() <= MAX_SEGMENTS
}

/// Reads the logical records of segment bytes `data` one after another, up
/// to its end or the first fault. Returns where each record starts and ends,
/// and where reading stopped.
pub fn scan_segment(data: &Vec<u8>) -> (r: (Vec<(usize, usize)>, usize))
    ensures
        r.0@.len() == scan(data@, 0).0.len(),
        r.1 as int == scan(data@, 0).1,
        r.1 <= data@.len(),
        forall|t: int| 0 <= t < r.0@.len() ==> #[trigger] r.0@[t].1 <= r.1,
        forall|t: int|
            0 <= t < r.0@.len() ==> #[trigger] read_at(data@, r.0@[t].0 as int) == Ok::<
                (Seq<u8>, int),
                Error,
            >((scan(data@, 0).0[t], r.0@[t].1 as int)),
{
    let mut spots: Vec<(usize, usize)> = Vec::new();
    let mut pos: usize = 0;
    let ghost mut found: Seq<Seq<u8>> = Seq::empty();
    let len = data.len();
    loop
        invariant_except_break
            pos <= len,
            len == data@.len(),
            spots@.len() == found.len(),
            scan(data@, 0).0 == found + scan(data@, pos as int).0,
            scan(data@, 0).1 == scan(data@, pos as int).1,
            forall|t: int| 0 <= t < spots@.len() ==> #[trigger] spots@[t].1 <= pos,
            forall|t: int|
                0 <= t < spots@.len() ==> #[trigger] read_at(data@, spots@[t].0 as int) == Ok::<
                    (Seq<u8>, int),
                    Error,
                >((found[t], spots@[t].1 as int)),
        ensures
            pos <= len,
            spots@.len() == found.len(),
            scan(data@, 0).0 == found,
            scan(data@, 0).1 == pos,
            forall|t: int| 0 <= t < spots@.len() ==> #[trigger] spots@[t].1 <= pos,
            forall|t: int|
                0 <= t < spots@.len() ==> #[trigger] read_at(data@, spots@[t].0 as int) == Ok::<
                    (Seq<u8>, int),
                    Error,
                >((found[t], spots@[t].1 as int)),
        decreases len - pos,
    {
        if pos >= len {
            assert(found + Seq::<Seq<u8>>::empty() =~= found);
            break;
        }
        match Block::read_payload(data.as_slice(), pos) {
            Ok((p, e)) => {
                if e <= pos || e > len {
                    assert(found + Seq::<Seq<u8>>::empty() =~= found);
                    break;
                }
                proof {
                    assert(found + scan(data@, pos as int).0 =~= found.push(p@) + scan(data@, e as int).0);
                    found = found.push(p@);
                }
                spots.push((pos, e));
                pos = e;
            },
            Err(_) => {
                assert(found + Seq::<Seq<u8>>::empty() =~= found);
                break;
            },
        }
    }
    (spots, pos)
}

/// `after` is `before` with `payload` appended under sequence number `seq`,
/// the one after the last retained: what `LocalWAL::write` ensures when it
/// succeeds.
pub open spec fn appended<W: LocalWAL>(before: W, after: W, payload: Seq<u8>, seq: nat) -> bool {
    &&& seq == before.first() + before.retained().len()
    &&& after.retained() == before.retained().push(payload)
    &&& after.first() == before.first()
}

/// `after` is `before` without the records numbered up to `up_to`: what
/// `LocalWAL::truncate` ensures.
pub open spec fn truncated<W: LocalWAL>(before: W, after: W, up_to: nat) -> bool {
    &&& after.first() == truncated_first(before.first(), before.retained().len(), up_to)
    &&& after.retained() == before.retained().subrange(
        after.first() - before.first(),
        before.retained().len() as int,
    )
}

/// Segments numbered one after another, the newest one less than `next`, the
/// number that the next new segment gets.
pub open spec fn numbered(fs: Seq<WritableLogFile>, next: nat) -> bool {
    &&& forall|j: int| 0 <= j < fs.len() ==> #[trigger] fs[j].number == fs[0].number + j
    &&& fs.len() > 0 ==> fs.last().number + 1 == next
}

/// Payload `p` reads back, as one logical record, from some position of one
/// of the segments `fs`, and ends within that segment.
pub open spec fn stored_one(fs: Seq<WritableLogFile>, p: Seq<u8>) -> bool {
    exists|j: int, off: int|
        0 <= j < fs.len() && #[trigger] read_at(fs[j].data@, off) is Ok && read_at(
            fs[j].data@,
            off,
        )->Ok_0.0 == p && read_at(fs[j].data@, off)->Ok_0.1 <= fs[j].data@.len()
}

/// Each payload of `ps` is stored in one of the segments `fs`.
pub open spec fn stored(fs: Seq<WritableLogFile>, ps: Seq<Seq<u8>>) -> bool {
    forall|i: int| 0 <= i < ps.len() ==> #[trigger] stored_one(fs, ps[i])
}

/// Sequence and segment numbers are left for one more write.
pub open spec fn can_write_at(first: nat, len: nat, next_segment: nat) -> bool {
    &&& first + len < u64::MAX
    &&& next_segment + 2 <= MAX_SEGMENTS
}

/// Segments `after` (with next segment number `next_after`) are segments
/// `before` once `payload` is written: a first segment, numbered `next`, is
/// opened when none is held; the frame of the payload is appended to the
/// newest segment, the others staying as they are; once that segment holds
/// `target` bytes or more it is sealed and a new, empty one is opened with the
/// next number.
pub open spec fn written(
    before: Seq<WritableLogFile>,
    next: nat,
    after: Seq<WritableLogFile>,
    next_after: nat,
    payload: Seq<u8>,
    target: nat,
) -> bool {
    let created = before.len() == 0;
    let n = if created { 1 } else { before.len() as int };
    let base: Seq<u8> = if created { Seq::empty() } else { before.last().data@ };
    let grown = base + frame(base.len() as int % (BLOCK_SIZE as int), payload, true);
    let number: nat = if created { next } else { before.last().number as nat };
    &&& forall|j: int| 0 <= j < n - 1 ==> #[trigger] after[j] == before[j]
    &&& after[n - 1].data@ == grown
    &&& after[n - 1].number == number
    &&& grown.len() >= target ==> {
        &&& after.len() == n + 1
        &&& after[n].data@.len() == 0
        &&& after[n].number == number + 1
        &&& next_after == number + 2
    }
    &&& grown.len() < target ==> after.len() == n && next_after == number + 1
}

/// What a write-ahead log offers: numbered appends, reads by number, and
/// truncation of old records. Its state is the retained payloads, numbered
/// consecutively from `first`, and the segments that hold them.
pub trait LocalWAL: Sized {
    /// The state is consistent.
    spec fn inv(&self) -> bool;

    /// The retained payloads, in sequence order.
    spec fn retained(&self) -> Seq<Seq<u8>>;

    /// The sequence number of the first retained payload; one past the last
    /// when none is retained.
    spec fn first(&self) -> nat;

    /// The log directory was set up.
    spec fn dir_ready(&self) -> bool;

    /// The segments held, oldest first: the newest receives the writes.
    spec fn segment_files(&self) -> Seq<WritableLogFile>;

    /// The size at which a segment is closed.
    spec fn target_size(&self) -> nat;

    /// The number that the next new segment gets.
    spec fn next_segment(&self) -> nat;

    /// A consistent log stores every retained payload in its segments, which
    /// are numbered one after another below the next segment number.
    proof fn lemma_stored(&self)
        requires
            self.inv(),
        ensures
            stored(self.segment_files(), self.retained()),
            numbered(self.segment_files(), self.next_segment()),
    ;

    /// An empty log in directory `path`, with default options.
    fn new(path: &str) -> (r: Self)
        ensures
            r.inv(),
            r.retained().len() == 0,
            r.first() == 1,
            !r.dir_ready(),
            r.segment_files().len() == 0,
            r.next_segment() == 0,
    ;

    /// Whether the log directory was set up.
    fn check_exist(&self) -> (r: bool)
        requires
            self.inv(),
        ensures
            r == self.dir_ready(),
    ;

    /// Sets up the log directory, once it has been resolved and created;
    /// `is_dir` tells whether it is a directory. Refused with `InvalidArgs`
    /// when it is not.
    fn create_dir(&mut self, is_dir: bool) -> (r: Result<(), Error>)
        requires
            old(self).inv(),
        ensures
            final(self).inv(),
            r is Ok <==> is_dir,
            !is_dir ==> r matches Err(Error::InvalidArgs(_)),
            final(self).dir_ready() == (old(self).dir_ready() || is_dir),
            final(self).retained() == old(self).retained(),
            final(self).first() == old(self).first(),
            final(self).segment_files() == old(self).segment_files(),
            final(self).next_segment() == old(self).next_segment(),
    ;

    /// Drops the records numbered up to `up_to`, and the segments that hold
    /// only such records.
    fn truncate(&mut self, up_to: u64)
        requires
            old(self).inv(),
        ensures
            final(self).inv(),
            final(self).first() == truncated_first(
                old(self).first(),
                old(self).retained().len(),
                up_to as nat,
            ),
            final(self).retained() == old(self).retained().subrange(
                final(self).first() - old(self).first(),
                old(self).retained().len() as int,
            ),
            final(self).next_segment() == old(self).next_segment(),
            numbered(final(self).segment_files(), final(self).next_segment()),
            exists|k: int|
                0 <= k <= old(self).segment_files().len() && final(self).segment_files()
                    == old(self).segment_files().subrange(k, old(self).segment_files().len() as int),
            old(self).segment_files().len() > 0 ==> final(self).segment_files().len() > 0,
    ;

    /// Appends a payload as one logical record and returns its sequence number,
    /// the one after the last. The segment that receives it is closed, and a
    /// new one opened with the next segment number, once it reaches the
    /// target size.
    fn write(&mut self, payload: &[u8]) -> (r: Result<u64, Error>)
        requires
            old(self).inv(),
        ensures
            final(self).inv(),
            r is Ok <==> can_write_at(
                old(self).first(),
                old(self).retained().len(),
                old(self).next_segment(),
            ),
            r matches Ok(s) ==> {
                &&& s == old(self).first() + old(self).retained().len()
                &&& final(self).retained() == old(self).retained().push(payload@)
                &&& final(self).first() == old(self).first()
            },
            r is Err ==> *final(self) == *old(self),
            r is Ok ==> written(
                old(self).segment_files(),
                old(self).next_segment(),
                final(self).segment_files(),
                final(self).next_segment(),
                payload@,
                old(self).target_size(),
            ),
            numbered(final(self).segment_files(), final(self).next_segment()),
    ;

    /// The payload with sequence number `seq`; `SequenceNotFound` when it is
    /// not retained.
    fn read(&self, seq: u64) -> (r: Result<Vec<u8>, Error>)
        requires
            self.inv(),
        ensures
            self.first() <= seq < self.first() + self.retained().len() ==> (r matches Ok(p)
                && p@ == self.retained()[seq - self.first()]),
            !(self.first() <= seq < self.first() + self.retained().len()) ==> r matches Err(
                Error::SequenceNotFound,
            ),
    ;

    /// Replaces the log with what the segment `files` hold, oldest first, the
    /// first record numbered `first_seq`. Records are read one after another up
    /// to the first fault; the bytes from there on are dropped, and so is the
    /// content of every later segment. `InvalidArgs` when `first_seq` is 0, the
    /// segment numbers do not follow one another, or the numbers run out.
    fn open(&mut self, first_seq: u64, files: Vec<WritableLogFile>) -> (r: Result<(), Error>)
        requires
            old(self).inv(),
        ensures
            final(self).inv(),
            r is Ok <==> (first_seq >= 1 && numbers_follow(files@) && first_seq + recovered(
                files_data(files@),
            ).len() <= u64::MAX),
            r is Ok ==> final(self).first() == first_seq && final(self).retained() == recovered(
                files_data(files@),
            ) && final(self).dir_ready() == old(self).dir_ready(),
            r is Ok ==> {
                &&& final(self).segment_files().len() == files@.len()
                &&& numbered(final(self).segment_files(), final(self).next_segment())
                &&& files@.len() > 0 ==> final(self).segment_files()[0].number == files@[0].number
                &&& files@.len() == 0 ==> final(self).next_segment() == old(self).next_segment()
            },
            r is Err ==> *final(self) == *old(self),
            r is Err ==> (r matches Err(Error::InvalidArgs(_))),
    ;

    /// Closes the log; its records stay.
    fn close(&mut self) -> (r: Result<(), Error>)
        requires
            old(self).inv(),
        ensures
            r is Ok,
            *final(self) == *old(self),
    ;

    /// The first retained sequence number.
    fn first_seq(&self) -> (r: u64)
        requires
            self.inv(),
        ensures
            r == self.first(),
    ;

    /// The last retained sequence number; one less than `first_seq` when
    /// nothing is retained.
    fn last_seq(&self) -> (r: u64)
        requires
            self.inv(),
        ensures
            r == self.first() + self.retained().len() - 1,
    ;
}

/// A log kept as segments of bytes in memory, one per segment file of the
/// log directory; the caller moves the bytes to and from the files.
pub struct LocalFileWALImpl {
    abs_path: Vec<u8>,
    opts: Options,
    manager: WALManager,
    dir_ready: bool,
    segments: Vec<WritableLogFile>,
    entries: Vec<LocalWALEntry>,
    first: u64,
    log: Ghost<Seq<Seq<u8>>>,
}

impl LocalFileWALImpl {
    /// The options in force.
    pub closed spec fn options_spec(&self) -> Options {
        self.opts
    }

    /// Position of segment number `n` among the segments held.
    pub closed spec fn seg_index(&self, n: u64) -> int {
        n - self.segments@[0].number
    }

    /// Entry `i` names the segment and position from which the `i`-th
    /// retained payload reads back.
    pub closed spec fn entry_ok(&self, i: int) -> bool {
        let e = self.entries@[i];
        let k = self.seg_index(e.segment);
        &&& e.id == self.first + i
        &&& 0 <= k < self.segments@.len()
        &&& e.end <= self.segments@[k].data@.len()
        &&& read_at(self.segments@[k].data@, e.offset as int) == Ok::<(Seq<u8>, int), Error>(
            (self.log@[i], e.end as int),
        )
    }

    pub closed spec fn wf(&self) -> bool {
        &&& self.opts.segment_size > 0
        &&& self.log@.len() == self.entries@.len()
        &&& self.first >= 1
        &&& self.first + self.entries@.len() <= u64::MAX
        &&& self.manager.log_num <= MAX_SEGMENTS
        &&& forall|j: int|
            0 <= j < self.segments@.len() ==> #[trigger] self.segments@[j].number
                == self.segments@[0].number + j
        &&& self.segments@.len() > 0 ==> self.segments@[0].number + self.segments@.len()
            == self.manager.log_num
        &&& forall|i: int| 0 <= i < self.entries@.len() ==> #[trigger] self.entry_ok(i)
        &&& forall|i: int, j: int|
            0 <= i < j < self.entries@.len() ==> #[trigger] self.entries@[i].segment
                <= #[trigger] self.entries@[j].segment
    }

    proof fn lemma_numbered(&self)
        requires
            self.wf(),
        ensures
            numbered(self.segments@, self.manager.log_num as nat),
    {
        if self.segments@.len() > 0 {
            let n = self.segments@.len() - 1;
            assert(self.segments@[n].number == self.segments@[0].number + n);
        }
    }

    /// An empty log in directory `path` with the given options; `InvalidArgs`
    /// when the segment size is not positive.
    pub fn with_options(path: &str, opts: Options) -> (r: Result<Self, Error>)
        ensures
            opts.segment_size > 0 <==> r is Ok,
            r matches Ok(w) ==> w.inv() && w.retained().len() == 0 && w.first() == 1
                && w.target_size() == opts.target_bytes() && w.segment_files().len() == 0
                && w.next_segment() == 0,
            opts.segment_size <= 0 ==> r matches Err(Error::InvalidArgs(_)),
    {
        if opts.segment_size <= 0 {
            return Err(Error::InvalidArgs("segment size must be positive".to_owned()));
        }
        let abs_path = vstd::slice::slice_to_vec(path.as_bytes());
        let dir = vstd::slice::slice_to_vec(path.as_bytes());
        Ok(LocalFileWALImpl {
            abs_path,
            opts,
            manager: WALManager::new(dir, 0),
            dir_ready: false,
            segments: Vec::new(),
            entries: Vec::new(),
            first: 1,
            log: Ghost(Seq::empty()),
        })
    }

    /// The options in force.
    pub fn options(&self) -> (r: Options)
        ensures
            r == self.options_spec(),
            r.target_bytes() == self.target_size(),
    {
        self.opts
    }

    /// The segments held, oldest first.
    pub fn segments(&self) -> (r: &Vec<WritableLogFile>)
        ensures
            r@ == self.segment_files(),
    {
        &self.segments
    }

    /// What to store for each segment held, oldest first: its path and bytes,
    /// and a sync unless the options skip it.
    pub fn files_to_write(&self) -> (r: Vec<WALWritableFile>)
        ensures
            r@.len() == self.segment_files().len(),
            forall|j: int|
                0 <= j < r@.len() ==> describes(
                    #[trigger] r@[j],
                    self.segment_files()[j],
                    !self.options_spec().no_sync,
                ),
    {
        let mut out: Vec<WALWritableFile> = Vec::new();
        let mut j: usize = 0;
        while j < self.segments.len()
            invariant
                j <= self.segments@.len(),
                out@.len() == j,
                forall|t: int|
                    0 <= t < j ==> describes(#[trigger] out@[t], self.segments@[t], !self.opts.no_sync),
            decreases self.segments@.len() - j,
        {
            let seg = &self.segments[j];
            let item = WALWritableFile {
                full_path: vstd::slice::slice_to_vec(seg.full_path.as_slice()),
                bytes: vstd::slice::slice_to_vec(seg.data.as_slice()),
                sync: !self.opts.no_sync,
            };
            let ghost out0 = out@;
            out.push(item);
            assert forall|t: int| 0 <= t < j + 1 implies describes(
                #[trigger] out@[t],
                self.segments@[t],
                !self.opts.no_sync,
            ) by {
                if t < j {
                    assert(out@[t] == out0[t]);
                }
            }
            j = j + 1;
        }
        out
    }

    /// Records that the next payload, `p`, reads back from `offset` of the
    /// newest segment and ends at `end`.
    fn push_entry(&mut self, offset: usize, end: usize, Ghost(p): Ghost<Seq<u8>>)
        requires
            old(self).wf(),
            old(self).segments@.len() > 0,
            old(self).first + old(self).entries@.len() < u64::MAX,
            end <= old(self).segments@.last().data@.len(),
            read_at(old(self).segments@.last().data@, offset as int) == Ok::<(Seq<u8>, int), Error>(
                (p, end as int),
            ),
        ensures
            final(self).wf(),
            final(self).log@ == old(self).log@.push(p),
            final(self).segments == old(self).segments,
            final(self).manager == old(self).manager,
            final(self).first == old(self).first,
            final(self).opts == old(self).opts,
            final(self).dir_ready == old(self).dir_ready,
            final(self).abs_path == old(self).abs_path,
    {
        let last = self.segments.len() - 1;
        let number = self.segments[last].number;
        let id = self.first + self.entries.len() as u64;
        let ghost s0 = *self;
        self.entries.push(LocalWALEntry { id, segment: number, offset, end });
        self.log = Ghost(self.log@.push(p));
        proof {
            assert(s0.segments@[last as int].number == s0.segments@[0].number + last);
            assert forall|i: int| 0 <= i < self.entries@.len() implies #[trigger] self.entry_ok(i) by {
                if i < self.entries@.len() - 1 {
                    assert(s0.entry_ok(i));
                    assert(self.entries@[i] == s0.entries@[i]);
                }
            }
            assert forall|i: int, j: int|
                0 <= i < j < self.entries@.len() implies #[trigger] self.entries@[i].segment
                    <= #[trigger] self.entries@[j].segment by {
                if j < self.entries@.len() - 1 {
                    assert(s0.entries@[i].segment <= s0.entries@[j].segment);
                } else {
                    assert(s0.entry_ok(i));
                }
            }
        }
    }

    /// Adds segment `f`, the next in number, as the newest segment. When
    /// `clean`, the records that read back from it one after another are
    /// retained, its bytes from the first fault on are dropped, and the result
    /// tells whether reading reached its end; otherwise its bytes are dropped.
    /// `None`, with nothing changed, when the sequence numbers run out.
    fn adopt_segment(&mut self, f: WritableLogFile, clean: bool) -> (r: Option<bool>)
        requires
            old(self).wf(),
            f.number == old(self).manager.log_num,
            old(self).manager.log_num < MAX_SEGMENTS,
        ensures
            r is None ==> clean && old(self).first + old(self).log@.len() + scan(f.data@, 0).0.len()
                > u64::MAX && *final(self) == *old(self),
            r is Some ==> {
                &&& final(self).wf()
                &&& final(self).segments@.len() == old(self).segments@.len() + 1
                &&& final(self).manager.log_num == old(self).manager.log_num + 1
                &&& old(self).segments@.len() > 0 ==> final(self).segments@[0].number
                    == old(self).segments@[0].number
                &&& final(self).segments@[0].number + final(self).segments@.len()
                    == final(self).manager.log_num
                &&& final(self).first == old(self).first
                &&& final(self).opts == old(self).opts
                &&& final(self).dir_ready == old(self).dir_ready
            },
            r is Some && clean ==> final(self).log@ == old(self).log@ + scan(f.data@, 0).0 && r
                == Some(scan(f.data@, 0).1 >= f.data@.len()),
            r is Some && !clean ==> final(self).log@ == old(self).log@ && r == Some(false),
    {
        let mut f = f;
        let ghost d = f.data@;
        let ghost scanned = scan(d, 0).0;
        let mut spots: Vec<(usize, usize)> = Vec::new();
        let mut reached_end = false;
        if clean {
            let (sp, stop) = scan_segment(&f.data);
            spots = sp;
            let used = self.entries.len() as u64;
            if u64::MAX - self.first - used < spots.len() as u64 {
                return None;
            }
            if stop < f.data.len() {
                f.data.truncate(stop);
                proof {
                    assert forall|t: int| 0 <= t < spots@.len() implies #[trigger] read_at(
                        f.data@,
                        spots@[t].0 as int,
                    ) == Ok::<(Seq<u8>, int), Error>((scanned[t], spots@[t].1 as int)) by {
                        assert(read_at(d, spots@[t].0 as int) == Ok::<(Seq<u8>, int), Error>(
                            (scanned[t], spots@[t].1 as int),
                        ));
                        lemma_read_prefix(d, stop as int, spots@[t].0 as int, Seq::empty(), true);
                    }
                }
            } else {
                reached_end = true;
            }
        } else {
            f.data.truncate(0);
        }
        let ghost w0 = *self;
        let ghost fd = f.data@;
        assert(forall|u: int| 0 <= u < spots@.len() ==> spots@[u].1 <= fd.len());
        let j = self.segments.len();
        self.segments.push(f);
        assert(self.segments@.last().data@ == fd);
        self.manager.log_num = self.manager.log_num + 1;
        proof {
            assert forall|i: int| 0 <= i < self.entries@.len() implies #[trigger] self.entry_ok(i) by {
                assert(w0.entry_ok(i));
                assert(self.segments@[w0.seg_index(self.entries@[i].segment)]
                    == w0.segments@[w0.seg_index(self.entries@[i].segment)]);
            }
            assert forall|t: int| 0 <= t < self.segments@.len() implies #[trigger] self.segments@[t].number
                == self.segments@[0].number + t by {
                if t < j {
                    assert(self.segments@[t] == w0.segments@[t]);
                }
                if j > 0 {
                    assert(self.segments@[0] == w0.segments@[0]);
                    assert(w0.segments@[0].number + j == w0.manager.log_num);
                }
            }
            if j > 0 {
                assert(self.segments@[0] == w0.segments@[0]);
            }
        }
        let nrec = spots.len();
        let mut t: usize = 0;
        assert(w0.log@ + scanned.subrange(0, 0) =~= w0.log@);
        while t < nrec
            invariant
                t <= nrec,
                nrec == spots@.len(),
                clean ==> nrec == scanned.len(),
                !clean ==> nrec == 0,
                self.wf(),
                self.segments@.len() == j + 1,
                self.segments@[0].number + self.segments@.len() == self.manager.log_num,
                j > 0 ==> self.segments@[0].number == w0.segments@[0].number,
                self.manager.log_num == w0.manager.log_num + 1,
                self.first == w0.first,
                self.opts == w0.opts,
                self.dir_ready == w0.dir_ready,
                self.first + self.entries@.len() + (nrec - t) <= u64::MAX,
                self.log@ == w0.log@ + scanned.subrange(0, t as int),
                forall|u: int|
                    0 <= u < spots@.len() ==> #[trigger] spots@[u].1
                        <= self.segments@.last().data@.len(),
                forall|u: int|
                    0 <= u < spots@.len() ==> #[trigger] read_at(
                        self.segments@.last().data@,
                        spots@[u].0 as int,
                    ) == Ok::<(Seq<u8>, int), Error>((scanned[u], spots@[u].1 as int)),
            decreases nrec - t,
        {
            let (off, end) = spots[t];
            assert(spots@[t as int].1 <= self.segments@.last().data@.len());
            assert(read_at(self.segments@.last().data@, spots@[t as int].0 as int) == Ok::<
                (Seq<u8>, int),
                Error,
            >((scanned[t as int], spots@[t as int].1 as int)));
            self.push_entry(off, end, Ghost(scanned[t as int]));
            assert(scanned.subrange(0, t + 1) =~= scanned.subrange(0, t as int).push(
                scanned[t as int],
            ));
            t = t + 1;
        }
        proof {
            if clean {
                assert(scanned.subrange(0, nrec as int) =~= scanned);
            } else {
                assert(w0.log@ + scanned.subrange(0, 0) =~= w0.log@);
            }
        }
        Some(reached_end)
    }

    /// Opens a new, empty segment with the next segment number.
    fn open_segment(&mut self)
        requires
            old(self).wf(),
            old(self).manager.log_num < MAX_SEGMENTS,
        ensures
            final(self).wf(),
            final(self).manager.log_num == old(self).manager.log_num + 1,
            final(self).segments@.len() == old(self).segments@.len() + 1,
            final(self).segments@.subrange(0, old(self).segments@.len() as int)
                == old(self).segments@,
            final(self).segments@.last().number == old(self).manager.log_num,
            final(self).segments@.last().data@.len() == 0,
            final(self).entries == old(self).entries,
            final(self).log == old(self).log,
            final(self).first == old(self).first,
            final(self).opts == old(self).opts,
            final(self).dir_ready == old(self).dir_ready,
    {
        let number = self.manager.log_num;
        let path = self.manager.gen_next_full_path();
        let f = WritableLogFile::create(path, number);
        let seg = f.unwrap();
        let ghost old_segs = self.segments@;
        self.segments.push(seg);
        proof {
            assert(self.segments@.subrange(0, old_segs.len() as int) =~= old_segs);
            if old_segs.len() == 0 {
                assert(self.entries@.len() == 0) by {
                    if self.entries@.len() > 0 {
                        assert(old(self).entry_ok(0));
                    }
                }
            } else {
                assert(self.segments@[0] == old_segs[0]);
            }
            assert forall|i: int| 0 <= i < self.entries@.len() implies #[trigger] self.entry_ok(i) by {
                assert(old(self).entry_ok(i));
            }
        }
    }
}

impl LocalWAL for LocalFileWALImpl {
    closed spec fn inv(&self) -> bool {
        self.wf()
    }

    closed spec fn retained(&self) -> Seq<Seq<u8>> {
        self.log@
    }

    closed spec fn first(&self) -> nat {
        self.first as nat
    }

    closed spec fn dir_ready(&self) -> bool {
        self.dir_ready
    }

    closed spec fn segment_files(&self) -> Seq<WritableLogFile> {
        self.segments@
    }

    closed spec fn target_size(&self) -> nat {
        self.opts.target_bytes()
    }

    closed spec fn next_segment(&self) -> nat {
        self.manager.log_num as nat
    }

    proof fn lemma_stored(&self) {
        self.lemma_numbered();
        assert forall|i: int| 0 <= i < self.log@.len() implies #[trigger] stored_one(self.segments@, self.log@[i]) by {
            assert(self.entry_ok(i));
            let e = self.entries@[i];
            let k = self.seg_index(e.segment);
            let d = self.segments@[k].data@;
            assert(0 <= k < self.segments@.len());
            assert(read_at(d, e.offset as int) == Ok::<(Seq<u8>, int), Error>((self.log@[i], e.end as int)));
            assert(read_at(d, e.offset as int)->Ok_0.0 == self.log@[i]);
            assert(read_at(d, e.offset as int)->Ok_0.1 <= d.len());
        }
        assert(stored(self.segments@, self.log@));
        assert(self.segment_files() == self.segments@);
        assert(self.retained() == self.log@);
        assert(numbered(self.segment_files(), self.next_segment()));
    }

    fn new(path: &str) -> (r: Self) {
        let abs_path = vstd::slice::slice_to_vec(path.as_bytes());
        let dir = vstd::slice::slice_to_vec(path.as_bytes());
        LocalFileWALImpl {
            abs_path,
            opts: Options::default(),
            manager: WALManager::new(dir, 0),
            dir_ready: false,
            segments: Vec::new(),
            entries: Vec::new(),
            first: 1,
            log: Ghost(Seq::empty()),
        }
    }

    fn check_exist(&self) -> (r: bool) {
        self.dir_ready
    }

    fn create_dir(&mut self, is_dir: bool) -> (r: Result<(), Error>) {
        let dir = vstd::slice::slice_to_vec(self.abs_path.as_slice());
        let r = self.manager.with_wal_dir(dir, is_dir);
        if r.is_ok() {
            self.dir_ready = true;
        }
        proof {
                        assert forall|i: int| 0 <= i < self.entries@.len() implies #[trigger] self.entry_ok(i) by {
                assert(old(self).entry_ok(i));
            }
        }
        r
    }

    fn truncate(&mut self, up_to: u64) {
        let len = self.entries.len() as u64;
        let new_first: u64 = if up_to < self.first {
            self.first
        } else if up_to - self.first + 1 >= len {
            self.first + len
        } else {
            up_to + 1
        };
        let drop = (new_first - self.first) as usize;
        let ghost s0 = *self;
        let ghost mut kk: int = 0;
        let kept = self.entries.split_off(drop);
        self.entries = kept;
        self.log = Ghost(self.log@.subrange(drop as int, s0.log@.len() as int));
        self.first = new_first;
        if self.segments.len() > 0 {
            let last = self.segments.len() - 1;
            let keep_from: u64 = if self.entries.len() > 0 {
                self.entries[0].segment
            } else {
                self.segments[last].number
            };
            proof {
                assert(s0.segments@[last as int].number == s0.segments@[0].number + last);
                if self.entries@.len() > 0 {
                    assert(s0.entry_ok(drop as int));
                }
            }
            let count = (keep_from - self.segments[0].number) as usize;
            let ghost s1 = *self;
            let kept_segs = self.segments.split_off(count);
            self.segments = kept_segs;
            proof {
                assert(self.segments@ == s0.segments@.subrange(count as int, s0.segments@.len() as int));
                kk = count as int;
                let n = self.segments@.len();
                assert(n > 0);
                assert forall|j: int| 0 <= j < n implies #[trigger] self.segments@[j].number
                    == self.segments@[0].number + j by {
                    assert(self.segments@[j] == s0.segments@[count + j]);
                    assert(self.segments@[0] == s0.segments@[count + 0]);
                    assert(s0.segments@[count + j].number == s0.segments@[0].number + count + j);
                    assert(s0.segments@[count + 0].number == s0.segments@[0].number + count + 0);
                }
                assert(self.segments@[0].number == keep_from) by {
                    assert(self.segments@[0] == s0.segments@[count + 0]);
                    assert(s0.segments@[count + 0].number == s0.segments@[0].number + count + 0);
                }
                assert forall|i: int| 0 <= i < self.entries@.len() implies #[trigger] self.entry_ok(i) by {
                    assert(s0.entry_ok(drop + i));
                    assert(self.entries@[i] == s0.entries@[drop + i]);
                    assert(self.log@[i] == s0.log@[drop + i]);
                    let e = self.entries@[i];
                    if i > 0 {
                        assert(s0.entries@[drop + 0].segment <= s0.entries@[drop + i].segment);
                    }
                    assert(self.entries@[0] == s0.entries@[drop + 0]);
                    let k = s0.seg_index(e.segment);
                    assert(self.segments@[k - count] == s0.segments@[count + (k - count)]);
                }
            }
        } else {
            proof {
                assert(self.segments@ =~= s0.segments@.subrange(0, 0));
                assert(self.entries@.len() == 0) by {
                    if self.entries@.len() > 0 {
                        assert(s0.entry_ok(drop as int));
                    }
                }
            }
        }
        proof {
            assert forall|i: int, j: int|
                0 <= i < j < self.entries@.len() implies #[trigger] self.entries@[i].segment
                    <= #[trigger] self.entries@[j].segment by {
                assert(self.entries@[i] == s0.entries@[drop + i]);
                assert(self.entries@[j] == s0.entries@[drop + j]);
                assert(s0.entries@[drop + i].segment <= s0.entries@[drop + j].segment);
            }
            assert(s0.segments@ == old(self).segments@);
            assert(self.segment_files() == old(self).segment_files().subrange(
                kk,
                old(self).segment_files().len() as int,
            ));
            self.lemma_numbered();
        }
    }

    fn write(&mut self, payload: &[u8]) -> (r: Result<u64, Error>) {
        let len = self.entries.len() as u64;
        if self.first >= u64::MAX - len || self.manager.log_num > MAX_SEGMENTS - 2 {
            return Err(Error::InvalidArgs("sequence or segment numbers are exhausted".to_owned()));
        }
        if self.segments.len() == 0 {
            self.open_segment();
        }
        let ghost s1 = *self;
        let seq = self.first + len;
        let mut seg = self.segments.pop().unwrap();
        let ghost d0 = seg.data@;
        let offset = seg.data.len();
        Block::write_payload(&mut seg.data, payload);
        let end = seg.data.len();
        let number = seg.number;
        proof {
            lemma_block_round_trip(d0, payload@, Seq::empty());
            assert(seg.data@ + Seq::<u8>::empty() =~= seg.data@);
            assert(self.segments@.len() == s1.segments@.len() - 1);
            assert(s1.segments@.last().number == s1.segments@[0].number + s1.segments@.len() - 1);
            assert((self.opts.segment_size as u64) * MEGABYTE <= 0x8000_0000u64 * MEGABYTE) by (nonlinear_arith)
                requires
                    0 < self.opts.segment_size,
            ;
        }
        let full = seg.data.len() as u64 >= (self.opts.segment_size as u64) * MEGABYTE;
        self.segments.push(seg);
        self.entries.push(LocalWALEntry { id: seq, segment: number, offset, end });
        self.log = Ghost(self.log@.push(payload@));
        proof {
            let n = self.segments@.len();
            assert(self.segments@.subrange(0, n - 1) =~= s1.segments@.subrange(0, n - 1));
            assert forall|j: int| 0 <= j < n implies #[trigger] self.segments@[j].number
                == self.segments@[0].number + j by {
                if j < n - 1 {
                    assert(self.segments@[j] == s1.segments@[j]);
                }
                if n > 1 {
                    assert(self.segments@[0] == s1.segments@[0]);
                }
                assert(s1.segments@[j].number == s1.segments@[0].number + j);
            }
            assert(self.segments@[0].number == s1.segments@[0].number) by {
                assert(s1.segments@[0].number == s1.segments@[0].number + 0);
            }
            assert forall|i: int| 0 <= i < self.entries@.len() implies #[trigger] self.entry_ok(i) by {
                if i < self.entries@.len() - 1 {
                    assert(s1.entry_ok(i));
                    let e = self.entries@[i];
                    let k = s1.seg_index(e.segment);
                    assert(e == s1.entries@[i]);
                    assert(self.log@[i] == s1.log@[i]);
                    if k < n - 1 {
                        assert(self.segments@[k] == s1.segments@[k]);
                    } else {
                        lemma_read_extends(d0, frame(d0.len() as int % (BLOCK_SIZE as int), payload@, true), e.offset as int, Seq::empty(), true);
                    }
                }
            }
            assert forall|i: int, j: int|
                0 <= i < j < self.entries@.len() implies #[trigger] self.entries@[i].segment
                    <= #[trigger] self.entries@[j].segment by {
                if j < self.entries@.len() - 1 {
                    assert(s1.entries@[i].segment <= s1.entries@[j].segment);
                } else {
                    assert(s1.entry_ok(i));
                }
            }
                    }
        let ghost s2 = *self;
        if full {
            self.open_segment();
        }
        proof {
            let o = old(self).segments@;
            let n = s1.segments@.len();
            assert(s2.segments@ =~= s1.segments@.subrange(0, n - 1).push(s2.segments@[n - 1]));
            assert(self.segments@.subrange(0, n as int) == s2.segments@);
            assert(o.len() > 0 ==> s1.segments@ == o);
            assert(o.len() == 0 ==> s1.segments@.len() == 1 && s1.segments@[0].number == old(self).manager.log_num);
            assert forall|j: int| 0 <= j < n - 1 implies #[trigger] self.segments@[j] == o[j] by {
                assert(self.segments@[j] == s2.segments@[j]);
            }
            assert(self.segments@[n - 1] == s2.segments@[n - 1]);
            assert(s1.segments@.last().number == s1.manager.log_num - 1);
            self.lemma_numbered();
            assert(self.segments@.len() > 0);
        }
        Ok(seq)
    }

    fn read(&self, seq: u64) -> (r: Result<Vec<u8>, Error>) {
        let len = self.entries.len() as u64;
        if seq < self.first || seq - self.first >= len {
            return Err(Error::SequenceNotFound);
        }
        let i = (seq - self.first) as usize;
        let e = self.entries[i];
        proof {
            assert(self.entry_ok(i as int));
        }
        let nseg = self.segments.len();
        assert(e.segment - self.segments@[0].number < nseg);
        let k = (e.segment - self.segments[0].number) as usize;
        assert(read_at(self.segments@[k as int].data@, e.offset as int) is Ok);
        match Block::read_payload(self.segments[k].data.as_slice(), e.offset) {
            Ok((p, _)) => Ok(p),
            Err(err) => Err(err),
        }
    }

    fn open(&mut self, first_seq: u64, files: Vec<WritableLogFile>) -> (r: Result<(), Error>) {
        let n = files.len();
        if first_seq == 0 {
            return Err(Error::InvalidArgs("the first sequence number must be positive".to_owned()));
        }
        if n > 0 {
            if files[0].number > MAX_SEGMENTS || MAX_SEGMENTS - files[0].number < n as u64 {
                return Err(Error::InvalidArgs("segment numbers are exhausted".to_owned()));
            }
            let mut j: usize = 0;
            let mut follow = true;
            while j < n && follow
                invariant
                    j <= n,
                    n == files@.len(),
                    files@[0].number + n <= MAX_SEGMENTS,
                    forall|t: int| 0 <= t < j ==> #[trigger] files@[t].number == files@[0].number + t,
                    !follow ==> j < n && files@[j as int].number != files@[0].number + j,
                decreases n - j, if follow { 1int } else { 0int },
            {
                if files[j].number != files[0].number + j as u64 {
                    follow = false;
                } else {
                    j = j + 1;
                }
            }
            if !follow {
                return Err(Error::InvalidArgs("segment numbers do not follow one another".to_owned()));
            }
        }
        assert(numbers_follow(files@));
        let ghost orig = files@;
        let ghost all = files_data(files@);
        let start_num = if n > 0 { files[0].number } else { self.manager.log_num };
        let mut w = LocalFileWALImpl {
            abs_path: vstd::slice::slice_to_vec(self.abs_path.as_slice()),
            opts: self.opts,
            manager: WALManager::new(vstd::slice::slice_to_vec(self.manager.wal_dir.as_slice()), start_num),
            dir_ready: self.dir_ready,
            segments: Vec::new(),
            entries: Vec::new(),
            first: first_seq,
            log: Ghost(Seq::empty()),
        };
        let mut files = files;
        let mut clean = true;
        let mut exhausted = false;
        let mut j: usize = 0;
        assert(all.subrange(0, n as int) =~= all);
        while j < n && !exhausted
            invariant
                j <= n,
                n == orig.len(),
                all == files_data(orig),
                numbers_follow(orig),
                !exhausted ==> files@ == orig.subrange(j as int, n as int),
                w.wf(),
                w.first == first_seq,
                w.opts == self.opts,
                w.dir_ready == self.dir_ready,
                w.segments@.len() == j,
                n > 0 ==> w.manager.log_num == orig[0].number + j,
                n == 0 ==> w.manager.log_num == self.manager.log_num,
                j > 0 ==> w.segments@[0].number == orig[0].number,
                exhausted ==> first_seq + recovered(all).len() > u64::MAX,
                clean ==> recovered(all) == w.log@ + recovered(all.subrange(j as int, n as int)),
                !clean ==> recovered(all) == w.log@,
            decreases n - j, if exhausted { 0int } else { 1int },
        {
            let f = files.remove(0);
            assert(f == orig[j as int]);
            assert(f.number == orig[0].number + j);
            let ghost d = f.data@;
            let ghost rest = all.subrange(j as int, n as int);
            let ghost w0 = w;
            assert(rest[0] == d);
            assert(rest.drop_first() =~= all.subrange(j + 1, n as int));
            match w.adopt_segment(f, clean) {
                Some(c) => {
                    proof {
                        if clean && c {
                            assert(recovered(rest) == scan(d, 0).0 + recovered(all.subrange(j + 1, n as int)));
                            assert(w0.log@ + recovered(rest) =~= w.log@ + recovered(all.subrange(j + 1, n as int)));
                        }
                        if clean && !c {
                            assert(recovered(rest) == scan(d, 0).0);
                        }
                    }
                    clean = c;
                    j = j + 1;
                },
                None => {
                    proof {
                        assert(w == w0);
                        assert(recovered(rest).len() >= scan(d, 0).0.len());
                        assert(recovered(all) == w.log@ + recovered(rest));
                        assert(recovered(all).len() >= w.log@.len() + scan(d, 0).0.len());
                        assert(first_seq + recovered(files_data(orig)).len() > u64::MAX);
                    }
                    exhausted = true;
                },
            }
        }
        if exhausted {
            return Err(Error::InvalidArgs("sequence numbers are exhausted".to_owned()));
        }
        proof {
            if clean {
                assert(all.subrange(n as int, n as int).len() == 0);
                assert(w.log@ + Seq::<Seq<u8>>::empty() =~= w.log@);
            }
        }
        *self = w;
        Ok(())
    }

    fn close(&mut self) -> (r: Result<(), Error>) {
        let mut j: usize = 0;
        while j < self.segments.len()
            invariant
                j <= self.segments@.len(),
            decreases self.segments@.len() - j,
        {
            let _ = self.segments[j].close();
            j = j + 1;
        }
        Ok(())
    }

    fn first_seq(&self) -> (r: u64) {
        self.first
    }

    fn last_seq(&self) -> (r: u64) {
        self.first + self.entries.len() as u64 - 1
    }
}

/// Consecutive successful writes get consecutive sequence numbers, each one
/// more than the last retained before it, and the log then retains what it
/// held followed by the payloads, in the order written.
pub proof fn lemma_sequence_numbers<W: LocalWAL>(
    states: Seq<W>,
    payloads: Seq<Seq<u8>>,
    seqs: Seq<nat>,
)
    requires
        states.len() == payloads.len() + 1,
        seqs.len() == payloads.len(),
        forall|i: int|
            0 <= i < payloads.len() ==> #[trigger] appended(
                states[i],
                states[i + 1],
                payloads[i],
                seqs[i],
            ),
    ensures
        forall|i: int|
            0 <= i < seqs.len() ==> #[trigger] seqs[i] == states[0].first()
                + states[0].retained().len() + i,
        forall|i: int, j: int| 0 <= i < j < seqs.len() ==> seqs[i] < seqs[j],
        states.last().first() == states[0].first(),
        states.last().retained() == states[0].retained() + payloads,
    decreases payloads.len(),
{
    let n = payloads.len();
    if n == 0 {
        assert(states[0].retained() + payloads =~= states[0].retained());
    } else {
        let st = states.subrange(0, n as int);
        let ps = payloads.subrange(0, n - 1);
        let ss = seqs.subrange(0, n - 1);
        assert forall|i: int| 0 <= i < ps.len() implies #[trigger] appended(
            st[i],
            st[i + 1],
            ps[i],
            ss[i],
        ) by {
            assert(appended(states[i], states[i + 1], payloads[i], seqs[i]));
        }
        lemma_sequence_numbers(st, ps, ss);
        assert(appended(states[n - 1], states[n as int], payloads[n - 1], seqs[n - 1]));
        assert(st.last() == states[n - 1]);
        assert(states.last() == states[n as int]);
        assert forall|i: int| 0 <= i < seqs.len() implies #[trigger] seqs[i] == states[0].first()
            + states[0].retained().len() + i by {
            if i < n - 1 {
                assert(ss[i] == seqs[i]);
            } else {
                assert(st.last().retained() == states[0].retained() + ps);
            }
        }
        assert(states[0].retained() + payloads =~= (states[0].retained() + ps).push(payloads[n - 1]));
    }
}

/// After truncating up to `up_to`, no record numbered up to `up_to` is
/// retained; every record numbered above it that was retained still is, under
/// the same number and with the same payload; and nothing else is retained.
pub proof fn lemma_truncation<W: LocalWAL>(before: W, after: W, up_to: nat, seq: nat)
    requires
        truncated(before, after, up_to),
    ensures
        seq <= up_to ==> !(after.first() <= seq < after.first() + after.retained().len()),
        (before.first() <= seq < before.first() + before.retained().len() && seq > up_to)
            ==> (after.first() <= seq < after.first() + after.retained().len()
            && after.retained()[seq - after.first()] == before.retained()[seq - before.first()]),
        (after.first() <= seq < after.first() + after.retained().len()) ==> (before.first() <= seq
            < before.first() + before.retained().len() && seq > up_to),
{
}

} // verus!
