use vstd::prelude::*;
use vstd::string::StringExecFns;
use crate::error::Error;
use crate::record::append_bytes;

verus! {

/// Width of a segment file name: the segment number in zero-padded decimal.
pub const NAME_WIDTH: usize = 10;

/// Segment numbers that fit the fixed-width name.
pub const MAX_SEGMENTS: u64 = 10_000_000_000;

/// The last `width` decimal digits of `n`, as ASCII, most significant first.
pub open spec fn decimal_digits(n: nat, width: nat) -> Seq<u8>
    decreases width,
{
    if width == 0 {
        Seq::empty()
    } else {
        decimal_digits(n / 10, (width - 1) as nat).push((48 + n % 10) as u8)
    }
}

/// `dir` with a trailing separator: added unless it is empty or ends with one.
pub open spec fn with_separator(dir: Seq<u8>) -> Seq<u8> {
    if dir.len() == 0 || dir.last() == 47u8 {
        dir
    } else {
        dir.push(47u8)
    }
}

/// The full path of segment `n` in directory `dir`.
pub open spec fn segment_path(dir: Seq<u8>, n: nat) -> Seq<u8> {
    with_separator(dir) + decimal_digits(n, NAME_WIDTH as nat)
}

/// The file name of segment `n`: its number, zero-padded to a fixed width.
pub fn segment_file_name(n: u64) -> (r: Vec<u8>)
    ensures
        r@ == decimal_digits(n as nat, NAME_WIDTH as nat),
{
    let mut v: Vec<u8> = Vec::new();
    let mut m: u64 = n;
    let mut i: usize = 0;
    while i < NAME_WIDTH
        invariant
            i <= NAME_WIDTH,
            decimal_digits(n as nat, NAME_WIDTH as nat) == decimal_digits(
                m as nat,
                (NAME_WIDTH - i) as nat,
            ) + v@,
        decreases NAME_WIDTH - i,
    {
        let ghost v0 = v@;
        let d = (48 + m % 10) as u8;
        v.insert(0, d);
        assert(v@ =~= seq![d] + v0);
        assert(decimal_digits(m as nat, (NAME_WIDTH - i) as nat) == decimal_digits(
            (m / 10) as nat,
            (NAME_WIDTH - i - 1) as nat,
        ).push(d));
        assert(decimal_digits((m / 10) as nat, (NAME_WIDTH - i - 1) as nat).push(d) + v0
            =~= decimal_digits((m / 10) as nat, (NAME_WIDTH - i - 1) as nat) + v@);
        m = m / 10;
        i = i + 1;
    }
    assert(v@ =~= decimal_digits(n as nat, NAME_WIDTH as nat));
    v
}

/// The text of a path's bytes, with each invalid UTF-8 sequence replaced.
pub uninterp spec fn lossy_text(b: Seq<u8>) -> Seq<char>;

/// Relies on String::from_utf8_lossy: the text depends on the bytes alone.
#[verifier::external_body]
fn path_text(b: &[u8]) -> (r: String)
    ensures
        r@ == lossy_text(b@),
{
    String::from_utf8_lossy(b).into_owned()
}

/// The message of the error for a path that is not a directory.
pub open spec fn not_a_dir_message(dir: Seq<u8>) -> Seq<char> {
    "WAL dir path("@ + lossy_text(dir) + ") exists, but it is not a directory"@
}

/// Owns the log directory and the counter of segment numbers.
#[derive(Debug)]
pub struct WALManager {
    pub wal_dir: Vec<u8>,
    pub log_num: u64,
}

impl WALManager {
    /// A manager for directory `wal_dir`, whose next segment is `log_num`.
    pub fn new(wal_dir: Vec<u8>, log_num: u64) -> (r: WALManager)
        ensures
            r.wal_dir@ == wal_dir@,
            r.log_num == log_num,
    {
        WALManager { wal_dir, log_num }
    }

    /// Sets the log directory to `dir`, a path already resolved and created;
    /// `is_dir` tells whether it names a directory. A path that names
    /// something else is refused with `InvalidArgs`, and nothing changes.
    pub fn with_wal_dir(&mut self, dir: Vec<u8>, is_dir: bool) -> (r: Result<(), Error>)
        ensures
            is_dir <==> r is Ok,
            is_dir ==> final(self).wal_dir@ == dir@ && final(self).log_num == old(self).log_num,
            !is_dir ==> (r matches Err(Error::InvalidArgs(m)) && m@ == not_a_dir_message(dir@))
                && *final(self) == *old(self),
    {
        if !is_dir {
            let mut m = "WAL dir path(".to_owned();
            let text = path_text(dir.as_slice());
            m.append(text.as_str());
            m.append(") exists, but it is not a directory");
            proof {
                reveal_strlit("WAL dir path(");
                reveal_strlit(") exists, but it is not a directory");
            }
            return Err(Error::InvalidArgs(m));
        }
        self.wal_dir = dir;
        Ok(())
    }

    /// Takes the next segment number and returns the full path of that segment.
    pub fn gen_next_full_path(&mut self) -> (r: Vec<u8>)
        requires
            old(self).log_num < MAX_SEGMENTS,
        ensures
            r@ == segment_path(old(self).wal_dir@, old(self).log_num as nat),
            final(self).log_num == old(self).log_num + 1,
            final(self).wal_dir == old(self).wal_dir,
    {
        let n = self.log_num;
        self.log_num = n + 1;
        let mut path: Vec<u8> = Vec::new();
        append_bytes(&mut path, self.wal_dir.as_slice());
        let dl = path.len();
        if dl > 0 && path[dl - 1] != 47u8 {
            path.push(47u8);
        }
        let name = segment_file_name(n);
        append_bytes(&mut path, name.as_slice());
        assert(path@ =~= segment_path(old(self).wal_dir@, n as nat));
        path
    }
}

} // verus!
