//! Splitting a sequence into fixed-size, non-overlapping windows and scoring each.
use vstd::prelude::*;
use vstd::arithmetic::div_mod::{lemma_fundamental_div_mod, lemma_mod_bound};
use crate::score::{score_window, Score, ScoreKind};

verus! {

/// A named DNA sequence.
#[derive(Clone, Debug)]
pub struct Sequence {
    pub id: String,
    pub seq: Vec<u8>,
}

/// A scored window `[start, end)` of the sequence named `seqname`.
#[derive(Clone, Debug)]
pub struct BdgRecord {
    pub seqname: String,
    pub start: u64,
    pub end: u64,
    pub score: Score,
}

impl BdgRecord {
    /// Builds the record of window `[start, end)` of the sequence `seqname`.
    pub fn new(seqname: String, start: u64, end: u64, score: Score) -> (r: BdgRecord)
        ensures
            r.seqname == seqname,
            r.start == start,
            r.end == end,
            r.score == score,
    {
        BdgRecord { seqname, start, end, score }
    }
}

/// Why a run's settings were refused.
#[derive(Clone, Copy, Debug, PartialEq, Eq, Structural)]
pub enum WindowError {
    /// The window size is zero.
    InvalidWindowSize,
}

/// The settings of one run: the scorer and the window size, for all sequences.
#[derive(Clone, Copy, Debug, PartialEq, Eq, Structural)]
pub struct Config {
    pub kind: ScoreKind,
    pub window_size: usize,
}

impl Config {
    /// Checks the settings of a run; a window size of zero is refused.
    pub fn new(kind: ScoreKind, window_size: usize) -> (r: Result<Config, WindowError>)
        ensures
            window_size == 0 ==> r == Err::<Config, WindowError>(WindowError::InvalidWindowSize),
            window_size > 0 ==> r == Ok::<Config, WindowError>(Config { kind, window_size }),
    {
        if window_size == 0 {
            Err(WindowError::InvalidWindowSize)
        } else {
            Ok(Config { kind, window_size })
        }
    }
}

/// Number of windows of size `w` over a sequence of length `len`: `ceil(len / w)`.
pub open spec fn window_count(len: nat, w: nat) -> nat {
    if w == 0 {
        0
    } else {
        ((len + w - 1) / (w as int)) as nat
    }
}

/// Offset where window `k` starts.
pub open spec fn window_start(w: nat, k: nat) -> nat {
    k * w
}

/// Offset where window `k` ends: a full window, cut short at the sequence's end.
pub open spec fn window_end(len: nat, w: nat, k: nat) -> nat {
    if (k + 1) * w < len {
        (k + 1) * w
    } else {
        len
    }
}

/// `r` is window `k` of sequence `s`, named `id`, scored by `kind`.
pub open spec fn is_window_record(
    r: BdgRecord,
    id: Seq<char>,
    s: Seq<u8>,
    w: nat,
    kind: ScoreKind,
    k: nat,
) -> bool {
    &&& r.seqname@ == id
    &&& r.start == window_start(w, k)
    &&& r.end == window_end(s.len(), w, k)
    &&& r.score.is_score_of(kind, s.subrange(r.start as int, r.end as int))
}

/// `rs` holds every window of `s`, in order, each scored by `kind`.
pub open spec fn are_window_records(
    rs: Seq<BdgRecord>,
    id: Seq<char>,
    s: Seq<u8>,
    w: nat,
    kind: ScoreKind,
) -> bool {
    &&& rs.len() == window_count(s.len(), w)
    &&& forall|k: int| 0 <= k < rs.len() ==> is_window_record(#[trigger] rs[k], id, s, w, kind, k as nat)
}

/// A forward cursor over the windows of one sequence.
pub struct WindowIter {
    seqname: String,
    seq: Vec<u8>,
    window_size: usize,
    kind: ScoreKind,
    current_idx: usize,
}

impl WindowIter {
    /// Name of the sequence.
    pub closed spec fn id(&self) -> Seq<char> {
        self.seqname@
    }

    /// Bases of the sequence.
    pub closed spec fn bases(&self) -> Seq<u8> {
        self.seq@
    }

    /// Number of bases in a full window.
    pub closed spec fn window_size(&self) -> nat {
        self.window_size as nat
    }

    /// The scorer applied to each window.
    pub closed spec fn kind(&self) -> ScoreKind {
        self.kind
    }

    /// Offset where the next window starts; the sequence's length once exhausted.
    pub closed spec fn cursor(&self) -> nat {
        self.current_idx as nat
    }

    /// The window size is positive and the cursor lies within the sequence.
    pub closed spec fn wf(&self) -> bool {
        &&& self.window_size > 0
        &&& self.current_idx <= self.seq@.len()
    }

    /// Starts before the first window of `seq`.
    pub fn new(seq: Sequence, config: Config) -> (r: WindowIter)
        requires
            config.window_size > 0,
        ensures
            r.wf(),
            r.id() == seq.id@,
            r.bases() == seq.seq@,
            r.window_size() == config.window_size,
            r.kind() == config.kind,
            r.cursor() == 0,
    {
        WindowIter {
            seqname: seq.id,
            seq: seq.seq,
            window_size: config.window_size,
            kind: config.kind,
            current_idx: 0,
        }
    }

    /// Produces the window at the cursor and moves past it, or `None` once
    /// the cursor has reached the sequence's end.
    pub fn next(&mut self) -> (r: Option<BdgRecord>)
        requires
            old(self).wf(),
        ensures
            final(self).wf(),
            final(self).id() == old(self).id(),
            final(self).bases() == old(self).bases(),
            final(self).window_size() == old(self).window_size(),
            final(self).kind() == old(self).kind(),
            old(self).cursor() >= old(self).bases().len() ==> r is None && final(self).cursor()
                == old(self).cursor(),
            old(self).cursor() < old(self).bases().len() ==> r is Some,
            r matches Some(rec) ==> {
                &&& rec.seqname@ == old(self).id()
                &&& rec.start == old(self).cursor()
                &&& rec.end == if old(self).cursor() + old(self).window_size() < old(
                    self,
                ).bases().len() {
                    old(self).cursor() + old(self).window_size()
                } else {
                    old(self).bases().len()
                }
                &&& rec.score.is_score_of(
                    old(self).kind(),
                    old(self).bases().subrange(rec.start as int, rec.end as int),
                )
                &&& final(self).cursor() == rec.end
            },
    {
        let len = self.seq.len();
        if self.current_idx >= len {
            return None;
        }
        let start = self.current_idx;
        let end = if self.window_size < len - start {
            start + self.window_size
        } else {
            len
        };
        let w = vstd::slice::slice_subrange(self.seq.as_slice(), start, end);
        let score = score_window(self.kind, w);
        self.current_idx = end;
        Some(BdgRecord::new(self.seqname.clone(), start as u64, end as u64, score))
    }
}

/// `n` windows of size `w` cover exactly `len` bases when the last one starts
/// before `len` and ends at or after it.
proof fn lemma_count_exact(len: nat, w: nat, n: nat)
    requires
        w > 0,
        n * w >= len,
        n == 0 || (n - 1) * w < len,
    ensures
        n == window_count(len, w),
{
    let x = (len + w - 1) as int;
    lemma_fundamental_div_mod(x, w as int);
    lemma_mod_bound(x, w as int);
    let q = x / (w as int);
    if n > 0 {
        assert((n - 1) * w == n * w - w) by (nonlinear_arith);
    }
    assert(n * w <= x < n * w + w);
    assert(q == n) by (nonlinear_arith)
        requires
            w * q <= x < w * q + w,
            n * w <= x < n * w + w,
            w > 0,
    ;
}

/// The last of the `window_count(len, w)` windows starts before `len` and
/// together they reach at least `len`.
proof fn lemma_count_bounds(len: nat, w: nat)
    requires
        w > 0,
    ensures
        window_count(len, w) * w >= len,
        window_count(len, w) > 0 ==> (window_count(len, w) - 1) * w < len,
        len == 0 ==> window_count(len, w) == 0,
        len > 0 ==> window_count(len, w) > 0,
{
    let x = (len + w - 1) as int;
    lemma_fundamental_div_mod(x, w as int);
    lemma_mod_bound(x, w as int);
    let q = x / (w as int);
    assert(q >= 0) by (nonlinear_arith)
        requires
            w * q + x % (w as int) == x,
            0 <= x % (w as int) < w,
            x >= 0,
            w > 0,
    ;
    let n = window_count(len, w);
    assert(n == q);
    assert(n * w >= len) by (nonlinear_arith)
        requires
            w * n + x % (w as int) == x,
            x % (w as int) <= w - 1,
            x == len + w - 1,
    ;
    if n > 0 {
        assert((n - 1) * w < len) by (nonlinear_arith)
            requires
                w * n + x % (w as int) == x,
                x % (w as int) >= 0,
                x == len + w - 1,
        ;
    }
    if len > 0 && n == 0 {
        assert(n * w == 0) by (nonlinear_arith)
            requires
                n == 0,
        ;
    }
}

/// The windows of size `w > 0` tile `[0, len)`: there are `ceil(len / w)` of
/// them, in increasing order, each non-empty, each ending where the next
/// starts; the first starts at 0 and the last ends at `len`; all but the last
/// hold `w` bases and the last holds `len % w`, or `w` where `w` divides
/// `len`; and every offset below `len` lies in exactly one of them.
pub proof fn lemma_windows_tile(len: nat, w: nat)
    requires
        w > 0,
    ensures
        window_count(len, w) == (len + w - 1) / (w as int),
        forall|k: nat|
            k < window_count(len, w) ==> window_start(w, k) < #[trigger] window_end(len, w, k),
        forall|k: nat|
            k + 1 < window_count(len, w) ==> #[trigger] window_end(len, w, k) - window_start(w, k)
                == w,
        forall|k: nat|
            k + 1 < window_count(len, w) ==> #[trigger] window_end(len, w, k) == window_start(
                w,
                k + 1,
            ),
        window_count(len, w) > 0 ==> {
            &&& window_start(w, 0) == 0
            &&& window_end(len, w, (window_count(len, w) - 1) as nat) == len
            &&& window_end(len, w, (window_count(len, w) - 1) as nat) - window_start(
                w,
                (window_count(len, w) - 1) as nat,
            ) == if len % w == 0 {
                w
            } else {
                len % w
            }
        },
        forall|i: nat|
            i < len ==> {
                &&& (i / w) < window_count(len, w)
                &&& window_start(w, #[trigger] (i / w)) <= i < window_end(len, w, i / w)
            },
        forall|i: nat, k: nat|
            #![trigger window_end(len, w, k), i / w]
            k < window_count(len, w) && window_start(w, k) <= i < window_end(len, w, k) ==> k == i
                / w,
{
    lemma_count_bounds(len, w);
    let n = window_count(len, w);
    assert forall|k: nat| k < n implies window_start(w, k) < #[trigger] window_end(len, w, k) by {
        assert(k * w <= (n - 1) * w && (k + 1) * w == k * w + w) by (nonlinear_arith)
            requires
                k < n,
                w > 0,
        ;
    }
    assert forall|k: nat| k + 1 < n implies #[trigger] window_end(len, w, k) - window_start(w, k)
        == w && window_end(len, w, k) == window_start(w, k + 1) by {
        assert((k + 1) * w <= (n - 1) * w && (k + 1) * w == k * w + w) by (nonlinear_arith)
            requires
                k + 1 < n,
                w > 0,
        ;
    }
    if n > 0 {
        assert(0 * w == 0);
        let m = len / w;
        lemma_fundamental_div_mod(len as int, w as int);
        lemma_mod_bound(len as int, w as int);
        if len % w == 0 {
            assert(m * w >= len && (m == 0 || (m - 1) * w < len)) by (nonlinear_arith)
                requires
                    w * m + 0 == len,
                    w > 0,
            ;
            lemma_count_exact(len, w, m);
            assert((n - 1) * w == n * w - w) by (nonlinear_arith);
        } else {
            assert((m + 1) * w >= len && m * w < len) by (nonlinear_arith)
                requires
                    w * m + len % w == len,
                    0 < len % w < w,
            ;
            lemma_count_exact(len, w, (m + 1) as nat);
        }
    }
    assert forall|i: nat| i < len implies {
        &&& (i / w) < n
        &&& window_start(w, #[trigger] (i / w)) <= i < window_end(len, w, i / w)
    } by {
        let k = i / w;
        lemma_fundamental_div_mod(i as int, w as int);
        lemma_mod_bound(i as int, w as int);
        assert(k * w <= i < k * w + w && (k + 1) * w == k * w + w) by (nonlinear_arith)
            requires
                w * k + (i as int) % (w as int) == i,
                0 <= (i as int) % (w as int) < w,
        ;
        assert(k < n) by (nonlinear_arith)
            requires
                k * w <= i,
                i < len,
                len <= n * w,
                w > 0,
        ;
    }
    assert forall|i: nat, k: nat|
        #![trigger window_end(len, w, k), i / w]
        k < n && window_start(w, k) <= i < window_end(len, w, k) implies k == i / w by {
        let j = i / w;
        lemma_fundamental_div_mod(i as int, w as int);
        lemma_mod_bound(i as int, w as int);
        assert(k == j) by (nonlinear_arith)
            requires
                w * j + (i as int) % (w as int) == i,
                0 <= (i as int) % (w as int) < w,
                k * w <= i,
                i < (k + 1) * w,
                w > 0,
        ;
    }
}

/// A sequence exactly one window long gives the single window `[0, len)`.
pub proof fn lemma_whole_sequence_window(len: nat, w: nat)
    requires
        w > 0,
        len == w,
    ensures
        window_count(len, w) == 1,
        window_start(w, 0) == 0,
        window_end(len, w, 0) == len,
{
    assert(1 * w == w && 0 * w == 0);
    lemma_count_exact(len, w, 1);
}

/// Every record scored from a sequence carries that sequence's name.
pub proof fn lemma_records_keep_name(
    rs: Seq<BdgRecord>,
    id: Seq<char>,
    s: Seq<u8>,
    w: nat,
    kind: ScoreKind,
)
    requires
        are_window_records(rs, id, s, w, kind),
    ensures
        forall|k: int| 0 <= k < rs.len() ==> (#[trigger] rs[k]).seqname@ == id,
{
    assert forall|k: int| 0 <= k < rs.len() implies (#[trigger] rs[k]).seqname@ == id by {
        assert(is_window_record(rs[k], id, s, w, kind, k as nat));
    }
}

/// Scoring the same sequence with the same settings twice gives the same
/// records, field by field.
pub proof fn lemma_records_determined(
    a: Seq<BdgRecord>,
    b: Seq<BdgRecord>,
    id: Seq<char>,
    s: Seq<u8>,
    w: nat,
    kind: ScoreKind,
)
    requires
        are_window_records(a, id, s, w, kind),
        are_window_records(b, id, s, w, kind),
    ensures
        a.len() == b.len(),
        forall|k: int|
            0 <= k < a.len() ==> {
                &&& (#[trigger] a[k]).seqname@ == b[k].seqname@
                &&& a[k].start == b[k].start
                &&& a[k].end == b[k].end
                &&& a[k].score == b[k].score
            },
{
    assert forall|k: int| 0 <= k < a.len() implies {
        &&& (#[trigger] a[k]).seqname@ == b[k].seqname@
        &&& a[k].start == b[k].start
        &&& a[k].end == b[k].end
        &&& a[k].score == b[k].score
    } by {
        assert(is_window_record(a[k], id, s, w, kind, k as nat));
        assert(is_window_record(b[k], id, s, w, kind, k as nat));
    }
}

/// Scores every window of `seq`, in order.
pub fn score_sequence(seq: Sequence, config: Config) -> (r: Vec<BdgRecord>)
    requires
        config.window_size > 0,
    ensures
        are_window_records(r@, seq.id@, seq.seq@, config.window_size as nat, config.kind),
{
    let ghost id = seq.id@;
    let ghost s = seq.seq@;
    let ghost w = config.window_size as nat;
    let mut it = WindowIter::new(seq, config);
    let mut out: Vec<BdgRecord> = Vec::new();
    proof {
        assert(out@.len() * w == 0) by (nonlinear_arith)
            requires
                out@.len() == 0,
        ;
    }
    loop
        invariant
            it.wf(),
            it.id() == id,
            it.bases() == s,
            it.window_size() == w,
            it.kind() == config.kind,
            w > 0,
            it.cursor() == if out@.len() * w < s.len() {
                out@.len() * w
            } else {
                s.len()
            },
            out@.len() == 0 || (out@.len() - 1) * w < s.len(),
            forall|k: int|
                0 <= k < out@.len() ==> is_window_record(
                    #[trigger] out@[k],
                    id,
                    s,
                    w,
                    config.kind,
                    k as nat,
                ),
        ensures
            out@.len() * w >= s.len(),
            out@.len() == 0 || (out@.len() - 1) * w < s.len(),
            forall|k: int|
                0 <= k < out@.len() ==> is_window_record(
                    #[trigger] out@[k],
                    id,
                    s,
                    w,
                    config.kind,
                    k as nat,
                ),
        decreases s.len() - it.cursor(),
    {
        let ghost n = out@.len();
        match it.next() {
            Some(rec) => {
                proof {
                    assert((n + 1) * w == n * w + w) by (nonlinear_arith);
                }
                out.push(rec);
            },
            None => {
                break;
            },
        }
    }
    proof {
        lemma_count_exact(s.len(), w, out@.len());
    }
    out
}

} // verus!
