//! Download progress: per-file status, the aggregated event a host
//! receives, the sliding-window speed calculator, and the coordinator's
//! concurrency bounds.

use vstd::prelude::*;

use crate::clock::{elapsed_millis, instant_now};
use crate::text::{dec_str, u64_to_string};

verus! {

/// Where one file's download stands.
#[derive(Clone, Copy, Debug, PartialEq, Eq, Structural)]
pub enum FileDownloadStatus {
    Pending,
    Downloading,
    Completed,
    Failed,
    Retrying,
}

/// One file's progress row.
#[derive(Clone, Debug)]
pub struct FileStatus {
    pub file_url: String,
    pub status: FileDownloadStatus,
    pub retry_count: u32,
    pub error_message: Option<String>,
}

/// One event of the progress stream.
#[derive(Clone, Debug)]
pub enum ProgressStatus {
    Connecting,
    Scanning { found: usize },
    Downloading {
        total_sessions: usize,
        current_session: usize,
        total_files: usize,
        completed_files: usize,
        failed_files: usize,
        speed: String,
        files: Vec<FileStatus>,
    },
    Parsing { session: String },
    Complete,
}

/// One downloaded file.
#[derive(Debug)]
pub struct DownloadResult {
    pub url: String,
    pub content: String,
    pub bytes_downloaded: u64,
}

impl DownloadResult {
    /// Packs one downloaded file.
    pub fn new(url: String, content: String, bytes_downloaded: u64) -> (r: DownloadResult)
        ensures
            r.url@ == url@,
            r.content@ == content@,
            r.bytes_downloaded == bytes_downloaded,
    {
        DownloadResult { url, content, bytes_downloaded }
    }
}

/// How many rows carry this status.
pub open spec fn count_with_status(fs: Seq<FileStatus>, st: FileDownloadStatus) -> int
    decreases fs.len(),
{
    if fs.len() == 0 {
        0
    } else {
        (if fs[0].status == st {
            1int
        } else {
            0int
        }) + count_with_status(fs.drop_first(), st)
    }
}

/// Counts the completed and the failed rows of a status snapshot.
pub fn count_terminal(files: &Vec<FileStatus>) -> (r: (usize, usize))
    ensures
        r.0 as int == count_with_status(files@, FileDownloadStatus::Completed),
        r.1 as int == count_with_status(files@, FileDownloadStatus::Failed),
{
    let ghost fv = files@;
    let mut done: usize = 0;
    let mut failed: usize = 0;
    let mut k: usize = 0;
    proof {
        assert(fv.skip(0) =~= fv);
    }
    while k < files.len()
        invariant
            k <= files.len(),
            fv == files@,
            done <= k,
            failed <= k,
            count_with_status(fv, FileDownloadStatus::Completed) == done + count_with_status(
                fv.skip(k as int),
                FileDownloadStatus::Completed,
            ),
            count_with_status(fv, FileDownloadStatus::Failed) == failed + count_with_status(
                fv.skip(k as int),
                FileDownloadStatus::Failed,
            ),
        decreases files.len() - k,
    {
        let ghost rest = fv.skip(k as int);
        proof {
            assert(rest[0] == fv[k as int]);
            assert(rest.drop_first() =~= fv.skip(k + 1));
        }
        match files[k].status {
            FileDownloadStatus::Completed => {
                done = done + 1;
            },
            FileDownloadStatus::Failed => {
                failed = failed + 1;
            },
            _ => {
            },
        }
        k = k + 1;
    }
    proof {
        assert(fv.skip(fv.len() as int) =~= Seq::<FileStatus>::empty());
    }
    (done, failed)
}

/// Builds one `Downloading` event from a status snapshot: the counts are
/// derived from the rows themselves.
pub fn downloading_event(
    total_sessions: usize,
    current_session: usize,
    speed: String,
    files: Vec<FileStatus>,
) -> (r: ProgressStatus)
    ensures
        (r matches ProgressStatus::Downloading {
            total_sessions: ts,
            current_session: cs,
            total_files: tf,
            completed_files: cf,
            failed_files: ff,
            speed: sp,
            files: f,
        } && ts == total_sessions && cs == current_session && tf as int == files@.len()
            && cf as int == count_with_status(files@, FileDownloadStatus::Completed) && ff as int
            == count_with_status(files@, FileDownloadStatus::Failed) && sp@ == speed@ && f@
            == files@),
{
    let (completed_files, failed_files) = count_terminal(&files);
    let total_files = files.len();
    ProgressStatus::Downloading {
        total_sessions,
        current_session,
        total_files,
        completed_files,
        failed_files,
        speed,
        files,
    }
}

// ------------------------------------------------------------------
// the speed calculator
// ------------------------------------------------------------------

/// A byte-count sample is outside the sliding window.
pub open spec fn sample_expired(t: u64, now: u64, window: u64) -> bool {
    t + window <= now
}

/// The samples left after expired ones are dropped from the front.
pub open spec fn prune_samples(s: Seq<(u64, u64)>, now: u64, window: u64) -> Seq<(u64, u64)>
    decreases s.len(),
{
    if s.len() > 0 && sample_expired(s[0].0, now, window) {
        prune_samples(s.drop_first(), now, window)
    } else {
        s
    }
}

/// The whole bytes per second a sample window shows: the byte growth
/// between the first and last sample over their time span, and zero where
/// fewer than two samples or no time lie between them.
pub open spec fn spec_speed_bps(s: Seq<(u64, u64)>) -> int {
    if s.len() < 2 {
        0
    } else {
        let first = s[0];
        let last = s[s.len() - 1];
        if last.0 <= first.0 {
            0
        } else if last.1 <= first.1 {
            0
        } else {
            (last.1 - first.1) * 1000 / (last.0 - first.0)
        }
    }
}

/// A speed rendered in tenths of a unit.
pub open spec fn render_tenths(t: int, unit: Seq<char>) -> Seq<char> {
    dec_str(t / 10) + "."@ + dec_str(t % 10) + unit
}

/// The human form of a byte rate, in the first unit that keeps the number
/// below 1024, with one decimal place rounded to the nearest tenth.
pub open spec fn spec_format_speed(bps: int) -> Seq<char> {
    if bps < 1024 {
        render_tenths(bps * 10, " B/s"@)
    } else if bps < 1024 * 1024 {
        render_tenths((bps * 10 + 512) / 1024, " KB/s"@)
    } else if bps < 1024 * 1024 * 1024 {
        render_tenths((bps * 10 + 512 * 1024) / ((1024 * 1024) as int), " MB/s"@)
    } else {
        render_tenths(
            (bps * 10 + 512 * 1024 * 1024) / ((1024 * 1024 * 1024) as int),
            " GB/s"@,
        )
    }
}

/// The front sample has left the window.
fn front_expired(samples: &Vec<(u64, u64)>, now: u64, window: u64) -> (r: bool)
    ensures
        r == (samples@.len() > 0 && sample_expired(samples@[0].0, now, window)),
{
    if samples.len() > 0 {
        match samples[0].0.checked_add(window) {
            Option::Some(limit) => limit <= now,
            Option::None => false,
        }
    } else {
        false
    }
}

/// The download-speed calculator: a sliding window of byte-count samples
/// against a monotonic clock.
pub struct SpeedCalculator {
    start_time: std::time::Instant,
    samples: Vec<(u64, u64)>,
    sample_window_ms: u64,
}

impl View for SpeedCalculator {
    type V = (Seq<(u64, u64)>, u64);

    closed spec fn view(&self) -> (Seq<(u64, u64)>, u64) {
        (self.samples@, self.sample_window_ms)
    }
}

impl SpeedCalculator {
    /// A calculator with an empty two-second window, started now.
    pub fn new() -> (r: SpeedCalculator)
        ensures
            r@.0 == Seq::<(u64, u64)>::empty(),
            r@.1 == 2000,
    {
        let r = SpeedCalculator {
            start_time: instant_now(),
            samples: Vec::new(),
            sample_window_ms: 2000,
        };
        proof {
            assert(r@.0 =~= Seq::<(u64, u64)>::empty());
        }
        r
    }

    /// Records a byte-count sample at the present moment: samples that
    /// have left the window are dropped from the front, and the new
    /// sample is appended.  The moment itself comes from the clock, so
    /// only its effect on the window is stated.
    pub fn add_sample(&mut self, bytes: u64)
        ensures
            exists|now: u64|
                final(self)@.0 == prune_samples(old(self)@.0, now, old(self)@.1).push(
                    (now, bytes),
                ),
            final(self)@.1 == old(self)@.1,
    {
        let now = elapsed_millis(&self.start_time);
        let window = self.sample_window_ms;
        let ghost s0 = self.samples@;
        while front_expired(&self.samples, now, window)
            invariant
                window == self.sample_window_ms,
                self@.1 == old(self)@.1,
                prune_samples(s0, now, window) == prune_samples(self.samples@, now, window),
            decreases self.samples@.len(),
        {
            let ghost pre = self.samples@;
            self.samples.remove(0);
            proof {
                assert(self.samples@ =~= pre.drop_first());
            }
        }
        proof {
            assert(prune_samples(self.samples@, now, window) == self.samples@);
        }
        self.samples.push((now, bytes));
        proof {
            assert(self@.0 == prune_samples(old(self)@.0, now, old(self)@.1).push((now, bytes)));
        }
    }

    /// The window's whole bytes per second, exactly `spec_speed_bps` of
    /// the stored samples.
    pub fn speed_bps(&self) -> (r: u64)
        ensures
            ({
                let v = spec_speed_bps(self@.0);
                if v <= u64::MAX {
                    r as int == v
                } else {
                    r == u64::MAX
                }
            }),
    {
        let n = self.samples.len();
        if n < 2 {
            return 0;
        }
        let first = self.samples[0];
        let last = self.samples[n - 1];
        if last.0 <= first.0 {
            return 0;
        }
        if last.1 <= first.1 {
            return 0;
        }
        let bytes = last.1 - first.1;
        let span = last.0 - first.0;
        let wide = (bytes as u128) * 1000 / (span as u128);
        proof {
            assert((bytes as int) * 1000 / (span as int) == wide as int) by (nonlinear_arith)
                requires
                    span as int > 0,
                    bytes as int >= 0,
                    wide as int == (bytes as u128 as int) * 1000 / (span as u128 as int),
                    bytes as u128 as int == bytes as int,
                    span as u128 as int == span as int,
            {
            }
        }
        if wide > u64::MAX as u128 {
            u64::MAX
        } else {
            wide as u64
        }
    }

    /// Renders the window's speed, exactly `spec_format_speed` of
    /// `spec_speed_bps`, saturated at the machine word.
    pub fn format_speed(&self) -> (r: String)
        ensures
            ({
                let v = spec_speed_bps(self@.0);
                let b = if v <= u64::MAX {
                    v
                } else {
                    u64::MAX as int
                };
                r@ == spec_format_speed(b)
            }),
    {
        let bps = self.speed_bps();
        let (tenths, unit): (u64, &str) = if bps < 1024 {
            (bps * 10, " B/s")
        } else if bps < 1024 * 1024 {
            ((bps * 10 + 512) / 1024, " KB/s")
        } else if bps < 1024 * 1024 * 1024 {
            ((bps * 10 + 512 * 1024) / (1024 * 1024), " MB/s")
        } else {
            let wide = ((bps as u128) * 10 + 512 * 1024 * 1024) / (1024u128 * 1024 * 1024);
            proof {
                assert(((bps as int) * 10 + 512 * 1024 * 1024) / ((1024 * 1024 * 1024) as int)
                    == wide as int && wide as int <= u64::MAX) by (nonlinear_arith)
                    requires
                        wide as int == ((bps as u128 as int) * 10 + 512 * 1024 * 1024) / ((1024
                            * 1024 * 1024) as int),
                        bps as u128 as int == bps as int,
                        0 <= bps as int <= u64::MAX,
                {
                }
            }
            (wide as u64, " GB/s")
        };
        let whole = u64_to_string(tenths / 10);
        let frac = u64_to_string(tenths % 10);
        proof {
            reveal_strlit(".");
        }
        whole.concat(".").concat(frac.as_str()).concat(unit)
    }

    /// Milliseconds since the calculator was created, by the monotonic
    /// clock.
    pub fn elapsed(&self) -> u64 {
        elapsed_millis(&self.start_time)
    }
}

impl Default for SpeedCalculator {
    /// The same empty two-second window `new` gives.
    fn default() -> (r: SpeedCalculator)
        ensures
            r@.0 == Seq::<(u64, u64)>::empty(),
            r@.1 == 2000,
    {
        SpeedCalculator::new()
    }
}

/// The coordinator's concurrency bounds: sessions in flight, files in
/// flight per session, and the per-file retry budget.
pub struct SessionDownloadCoordinator {
    pub max_sessions: usize,
    pub max_files_per_session: usize,
    pub max_retries: u32,
}

impl SessionDownloadCoordinator {
    /// A coordinator with the given bounds.
    pub fn new(max_sessions: usize, max_files_per_session: usize, max_retries: u32) -> (r:
        SessionDownloadCoordinator)
        ensures
            r.max_sessions == max_sessions,
            r.max_files_per_session == max_files_per_session,
            r.max_retries == max_retries,
    {
        SessionDownloadCoordinator { max_sessions, max_files_per_session, max_retries }
    }
}

} // verus!
