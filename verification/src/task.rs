//! Download tasks, their status, the settings that govern them, and the table of
//! tasks a download manager keeps.

use vstd::prelude::*;
use crate::text::{str_equal, string_of, str_to_chars, chars_equal};
use crate::urls::opt_chars;

verus! {

/// Where a download stands.
#[derive(Clone, Copy, Debug, PartialEq, Eq, Structural)]
pub enum DownloadStatus {
    Pending,
    Downloading,
    Paused,
    Completed,
    Failed,
}

impl Default for DownloadStatus {
    fn default() -> (s: Self)
        ensures
            s == DownloadStatus::Pending,
    {
        DownloadStatus::Pending
    }
}

/// The lowercase name a status is stored and sent under.
pub open spec fn status_name(s: DownloadStatus) -> Seq<char> {
    match s {
        DownloadStatus::Pending => seq!['p', 'e', 'n', 'd', 'i', 'n', 'g'],
        DownloadStatus::Downloading => seq!['d', 'o', 'w', 'n', 'l', 'o', 'a', 'd', 'i', 'n', 'g'],
        DownloadStatus::Paused => seq!['p', 'a', 'u', 's', 'e', 'd'],
        DownloadStatus::Completed => seq!['c', 'o', 'm', 'p', 'l', 'e', 't', 'e', 'd'],
        DownloadStatus::Failed => seq!['f', 'a', 'i', 'l', 'e', 'd'],
    }
}

/// The status a stored name stands for; an unknown name reads as pending.
pub open spec fn status_from_name(n: Seq<char>) -> DownloadStatus {
    if n == status_name(DownloadStatus::Downloading) {
        DownloadStatus::Downloading
    } else if n == status_name(DownloadStatus::Paused) {
        DownloadStatus::Paused
    } else if n == status_name(DownloadStatus::Completed) {
        DownloadStatus::Completed
    } else if n == status_name(DownloadStatus::Failed) {
        DownloadStatus::Failed
    } else {
        DownloadStatus::Pending
    }
}

impl DownloadStatus {
    /// The lowercase name of the status, as the database stores it.
    pub fn db_name(&self) -> (n: String)
        ensures
            n@ == status_name(*self),
    {
        match self {
            DownloadStatus::Pending => string_of(vec!['p', 'e', 'n', 'd', 'i', 'n', 'g']),
            DownloadStatus::Downloading => string_of(vec!['d', 'o', 'w', 'n', 'l', 'o', 'a', 'd', 'i', 'n', 'g']),
            DownloadStatus::Paused => string_of(vec!['p', 'a', 'u', 's', 'e', 'd']),
            DownloadStatus::Completed => string_of(vec!['c', 'o', 'm', 'p', 'l', 'e', 't', 'e', 'd']),
            DownloadStatus::Failed => string_of(vec!['f', 'a', 'i', 'l', 'e', 'd']),
        }
    }

    /// Reads a stored status name; anything unknown is `Pending`.
    pub fn from_db_name(name: &str) -> (s: DownloadStatus)
        ensures
            s == status_from_name(name@),
    {
        let n = str_to_chars(name);
        if chars_equal(n.as_slice(), vec!['d', 'o', 'w', 'n', 'l', 'o', 'a', 'd', 'i', 'n', 'g'].as_slice()) {
            DownloadStatus::Downloading
        } else if chars_equal(n.as_slice(), vec!['p', 'a', 'u', 's', 'e', 'd'].as_slice()) {
            DownloadStatus::Paused
        } else if chars_equal(n.as_slice(), vec!['c', 'o', 'm', 'p', 'l', 'e', 't', 'e', 'd'].as_slice()) {
            DownloadStatus::Completed
        } else if chars_equal(n.as_slice(), vec!['f', 'a', 'i', 'l', 'e', 'd'].as_slice()) {
            DownloadStatus::Failed
        } else {
            DownloadStatus::Pending
        }
    }
}

/// Storing a status and reading it back gives the same status.
pub proof fn lemma_status_name_round_trip(s: DownloadStatus)
    ensures
        status_from_name(status_name(s)) == s,
{
    assert(status_name(DownloadStatus::Pending) != status_name(DownloadStatus::Downloading));
    assert(status_name(DownloadStatus::Pending) != status_name(DownloadStatus::Paused)) by {
        assert(status_name(DownloadStatus::Pending)[1] != status_name(DownloadStatus::Paused)[1]);
    };
    assert(status_name(DownloadStatus::Pending) != status_name(DownloadStatus::Completed));
    assert(status_name(DownloadStatus::Pending) != status_name(DownloadStatus::Failed));
    assert(status_name(DownloadStatus::Paused) != status_name(DownloadStatus::Downloading));
    assert(status_name(DownloadStatus::Completed) != status_name(DownloadStatus::Downloading));
    assert(status_name(DownloadStatus::Completed) != status_name(DownloadStatus::Paused));
    assert(status_name(DownloadStatus::Failed) != status_name(DownloadStatus::Downloading));
    assert(status_name(DownloadStatus::Failed) != status_name(DownloadStatus::Paused));
    assert(status_name(DownloadStatus::Failed) != status_name(DownloadStatus::Completed)) by {
        assert(status_name(DownloadStatus::Failed)[0] != status_name(DownloadStatus::Completed)[0]);
    };
}

/// Limits of the download engine.
#[derive(Clone, Copy, Debug)]
pub struct DownloadConfig {
    pub max_threads: usize,
    pub max_concurrent: usize,
    pub speed_limit_kb: u64,
}

impl Default for DownloadConfig {
    fn default() -> (c: Self)
        ensures
            c.max_threads == 16,
            c.max_concurrent == 3,
            c.speed_limit_kb == 0,
    {
        DownloadConfig { max_threads: 16, max_concurrent: 3, speed_limit_kb: 0 }
    }
}

/// `v` clamped into `lo..=hi`.
pub open spec fn clamp(v: int, lo: int, hi: int) -> int {
    if v < lo { lo } else if v > hi { hi } else { v }
}

impl DownloadConfig {
    /// The configuration after a settings change: threads per download clamped to
    /// 1..=32, simultaneous downloads to 1..=10, the speed limit taken as given.
    pub fn with_limits(max_threads: usize, max_concurrent: usize, speed_limit_kb: u64) -> (c: Self)
        ensures
            c.max_threads == clamp(max_threads as int, 1, 32),
            c.max_concurrent == clamp(max_concurrent as int, 1, 10),
            c.speed_limit_kb == speed_limit_kb,
            1 <= c.max_threads <= 32,
            1 <= c.max_concurrent <= 10,
    {
        let t = if max_threads < 1 { 1 } else if max_threads > 32 { 32 } else { max_threads };
        let m = if max_concurrent < 1 { 1 } else if max_concurrent > 10 { 10 } else { max_concurrent };
        DownloadConfig { max_threads: t, max_concurrent: m, speed_limit_kb }
    }
}

/// The shared speed limit in bytes per second for a limit in KiB/s (0 = unlimited),
/// saturating at `u64::MAX`.
pub fn speed_limit_bytes(speed_limit_kb: u64) -> (bps: u64)
    ensures
        bps == (if speed_limit_kb * 1024 > u64::MAX { u64::MAX as int } else { speed_limit_kb * 1024 }),
{
    match speed_limit_kb.checked_mul(1024) {
        Some(v) => v,
        None => u64::MAX,
    }
}

/// The settings the user edits.
#[derive(Debug)]
pub struct DownloadSettings {
    pub max_threads: u32,
    pub max_concurrent: u32,
    pub download_dir: String,
    pub auto_start: bool,
    pub auto_open_file: bool,
    pub auto_open_folder: bool,
    pub notifications: bool,
    pub speed_limit_kb: u64,
}

impl DownloadSettings {
    /// The default settings, downloading into `download_dir`: 16 threads, 3 at a
    /// time, start automatically, open the folder (not the file) when done, notify,
    /// no speed limit.
    pub fn defaults_for(download_dir: String) -> (s: Self)
        ensures
            s.max_threads == 16,
            s.max_concurrent == 3,
            s.download_dir@ == download_dir@,
            s.auto_start,
            !s.auto_open_file,
            s.auto_open_folder,
            s.notifications,
            s.speed_limit_kb == 0,
    {
        DownloadSettings {
            max_threads: 16,
            max_concurrent: 3,
            download_dir,
            auto_start: true,
            auto_open_file: false,
            auto_open_folder: true,
            notifications: true,
            speed_limit_kb: 0,
        }
    }

    /// The engine configuration these settings ask for.
    pub fn engine_config(&self) -> (c: DownloadConfig)
        ensures
            c.max_threads == clamp(self.max_threads as int, 1, 32),
            c.max_concurrent == clamp(self.max_concurrent as int, 1, 10),
            c.speed_limit_kb == self.speed_limit_kb,
    {
        DownloadConfig::with_limits(self.max_threads as usize, self.max_concurrent as usize, self.speed_limit_kb)
    }
}

/// One download. Speed and percentage, which are floating point, are kept by the
/// caller beside it.
pub struct DownloadTask {
    pub id: String,
    pub url: String,
    pub filename: String,
    pub total_size: u64,
    pub downloaded_size: u64,
    pub status: DownloadStatus,
    pub thread_count: usize,
    pub retry_count: u32,
    pub max_retries: u32,
    pub created_at: String,
    pub completed_at: Option<String>,
    pub error: Option<String>,
    pub save_path: String,
}

/// A download as plain values.
pub struct TaskView {
    pub id: Seq<char>,
    pub url: Seq<char>,
    pub filename: Seq<char>,
    pub total_size: u64,
    pub downloaded_size: u64,
    pub status: DownloadStatus,
    pub thread_count: usize,
    pub retry_count: u32,
    pub max_retries: u32,
    pub created_at: Seq<char>,
    pub completed_at: Option<Seq<char>>,
    pub error: Option<Seq<char>>,
    pub save_path: Seq<char>,
}

impl View for DownloadTask {
    type V = TaskView;

    open spec fn view(&self) -> TaskView {
        TaskView {
            id: self.id@,
            url: self.url@,
            filename: self.filename@,
            total_size: self.total_size,
            downloaded_size: self.downloaded_size,
            status: self.status,
            thread_count: self.thread_count,
            retry_count: self.retry_count,
            max_retries: self.max_retries,
            created_at: self.created_at@,
            completed_at: opt_chars(self.completed_at),
            error: opt_chars(self.error),
            save_path: self.save_path@,
        }
    }
}

fn clone_opt(o: &Option<String>) -> (r: Option<String>)
    ensures
        opt_chars(r) == opt_chars(*o),
{
    match o {
        Some(s) => Some(s.clone()),
        None => None,
    }
}

impl Clone for DownloadTask {
    fn clone(&self) -> (r: Self)
        ensures
            r@ == self@,
    {
        DownloadTask {
            id: self.id.clone(),
            url: self.url.clone(),
            filename: self.filename.clone(),
            total_size: self.total_size,
            downloaded_size: self.downloaded_size,
            status: self.status,
            thread_count: self.thread_count,
            retry_count: self.retry_count,
            max_retries: self.max_retries,
            created_at: self.created_at.clone(),
            completed_at: clone_opt(&self.completed_at),
            error: clone_opt(&self.error),
            save_path: self.save_path.clone(),
        }
    }
}

impl DownloadTask {
    /// A new task waiting to start: nothing known or downloaded yet, three retries
    /// allowed, no completion time and no error.
    pub fn new_pending(
        id: String,
        url: String,
        filename: String,
        thread_count: usize,
        created_at: String,
        save_path: String,
    ) -> (t: Self)
        ensures
            t@ == (TaskView {
                id: id@,
                url: url@,
                filename: filename@,
                total_size: 0,
                downloaded_size: 0,
                status: DownloadStatus::Pending,
                thread_count,
                retry_count: 0,
                max_retries: 3,
                created_at: created_at@,
                completed_at: None,
                error: None,
                save_path: save_path@,
            }),
    {
        DownloadTask {
            id,
            url,
            filename,
            total_size: 0,
            downloaded_size: 0,
            status: DownloadStatus::Pending,
            thread_count,
            retry_count: 0,
            max_retries: 3,
            created_at,
            completed_at: None,
            error: None,
            save_path,
        }
    }
}

/// `应用重启，下载已中断`: the error a download interrupted by a restart gets.
pub open spec fn restart_error() -> Seq<char> {
    seq!['应', '用', '重', '启', '，', '下', '载', '已', '中', '断']
}

/// A stored task as it is restored at start-up: one that was downloading or
/// pending has been cut off and is marked failed.
pub open spec fn restored_task(t: TaskView) -> TaskView {
    if t.status == DownloadStatus::Downloading || t.status == DownloadStatus::Pending {
        TaskView { status: DownloadStatus::Failed, error: Some(restart_error()), ..t }
    } else {
        t
    }
}

/// After a restart no restored task is downloading or pending; finished, paused
/// and failed tasks come back unchanged.
pub proof fn lemma_restored_not_running(t: TaskView)
    ensures
        restored_task(t).status != DownloadStatus::Downloading,
        restored_task(t).status != DownloadStatus::Pending,
        (t.status == DownloadStatus::Completed || t.status == DownloadStatus::Paused
            || t.status == DownloadStatus::Failed) ==> restored_task(t) == t,
{
}

/// Restores a stored task at start-up; the flag says whether it changed and must be
/// written back.
pub fn restore_after_restart(task: DownloadTask) -> (r: (DownloadTask, bool))
    ensures
        r.0@ == restored_task(task@),
        r.1 == (task.status == DownloadStatus::Downloading || task.status == DownloadStatus::Pending),
{
    let mut task = task;
    if task.status == DownloadStatus::Downloading || task.status == DownloadStatus::Pending {
        task.status = DownloadStatus::Failed;
        task.error = Some(string_of(vec!['应', '用', '重', '启', '，', '下', '载', '已', '中', '断']));
        (task, true)
    } else {
        (task, false)
    }
}

/// A change made to one task.
pub enum TaskChange {
    /// Set the status.
    SetStatus(DownloadStatus),
    /// Mark failed with this error.
    Fail(String),
    /// Mark completed at this time; the whole file counts as downloaded.
    Complete(String),
    /// Set the file size.
    SetTotal(u64),
    /// Set the file size and the bytes already downloaded.
    SetTotalAndDownloaded(u64, u64),
    /// Set the bytes downloaded.
    SetDownloaded(u64),
}

/// A change to a task, as plain values.
pub enum ChangeView {
    SetStatus(DownloadStatus),
    Fail(Seq<char>),
    Complete(Seq<char>),
    SetTotal(u64),
    SetTotalAndDownloaded(u64, u64),
    SetDownloaded(u64),
}

impl View for TaskChange {
    type V = ChangeView;

    open spec fn view(&self) -> ChangeView {
        match self {
            TaskChange::SetStatus(s) => ChangeView::SetStatus(*s),
            TaskChange::Fail(e) => ChangeView::Fail(e@),
            TaskChange::Complete(at) => ChangeView::Complete(at@),
            TaskChange::SetTotal(n) => ChangeView::SetTotal(*n),
            TaskChange::SetTotalAndDownloaded(n, d) => ChangeView::SetTotalAndDownloaded(*n, *d),
            TaskChange::SetDownloaded(d) => ChangeView::SetDownloaded(*d),
        }
    }
}

/// A task after a change.
pub open spec fn changed(t: TaskView, c: ChangeView) -> TaskView {
    match c {
        ChangeView::SetStatus(s) => TaskView { status: s, ..t },
        ChangeView::Fail(e) => TaskView { status: DownloadStatus::Failed, error: Some(e), ..t },
        ChangeView::Complete(at) => TaskView {
            status: DownloadStatus::Completed,
            completed_at: Some(at),
            downloaded_size: t.total_size,
            ..t
        },
        ChangeView::SetTotal(n) => TaskView { total_size: n, ..t },
        ChangeView::SetTotalAndDownloaded(n, d) => TaskView { total_size: n, downloaded_size: d, ..t },
        ChangeView::SetDownloaded(d) => TaskView { downloaded_size: d, ..t },
    }
}

/// The first task with this id.
pub open spec fn lookup(ts: Seq<TaskView>, id: Seq<char>) -> Option<TaskView>
    decreases ts.len(),
{
    if ts.len() == 0 {
        None
    } else if ts[0].id == id {
        Some(ts[0])
    } else {
        lookup(ts.drop_first(), id)
    }
}

/// Index of the first task with this id.
pub open spec fn position(ts: Seq<TaskView>, id: Seq<char>) -> Option<int>
    decreases ts.len(),
{
    if ts.len() == 0 {
        None
    } else if ts[0].id == id {
        Some(0)
    } else {
        match position(ts.drop_first(), id) {
            Some(i) => Some(i + 1),
            None => None,
        }
    }
}

/// The tasks with the change made to those with this id.
pub open spec fn apply_to(ts: Seq<TaskView>, id: Seq<char>, c: ChangeView) -> Seq<TaskView>
    decreases ts.len(),
{
    if ts.len() == 0 {
        ts
    } else {
        let t = ts.last();
        apply_to(ts.drop_last(), id, c).push(if t.id == id { changed(t, c) } else { t })
    }
}

/// The tasks without those with this id.
pub open spec fn without(ts: Seq<TaskView>, id: Seq<char>) -> Seq<TaskView>
    decreases ts.len(),
{
    if ts.len() == 0 {
        ts
    } else if ts.last().id == id {
        without(ts.drop_last(), id)
    } else {
        without(ts.drop_last(), id).push(ts.last())
    }
}

/// The tasks that are not completed.
pub open spec fn uncompleted(ts: Seq<TaskView>) -> Seq<TaskView>
    decreases ts.len(),
{
    if ts.len() == 0 {
        ts
    } else if ts.last().status == DownloadStatus::Completed {
        uncompleted(ts.drop_last())
    } else {
        uncompleted(ts.drop_last()).push(ts.last())
    }
}

/// The tasks after storing `t`: it replaces the task with its id, or is added.
pub open spec fn stored(ts: Seq<TaskView>, t: TaskView) -> Seq<TaskView> {
    match position(ts, t.id) {
        Some(i) => ts.update(i, t),
        None => ts.push(t),
    }
}

/// No id occurs twice among the tasks.
pub open spec fn unique_ids(ts: Seq<TaskView>) -> bool {
    forall|i: int, j: int| 0 <= i < j < ts.len() ==> #[trigger] ts[i].id != #[trigger] ts[j].id
}

/// No task has this id.
pub open spec fn id_absent(ts: Seq<TaskView>, k: Seq<char>) -> bool {
    forall|j: int| 0 <= j < ts.len() ==> #[trigger] ts[j].id != k
}

/// The plain values of a sequence of tasks.
pub open spec fn task_views(s: Seq<DownloadTask>) -> Seq<TaskView> {
    s.map_values(|t: DownloadTask| t@)
}

/// The tasks a download manager knows, by id.
pub struct TaskTable {
    tasks: Vec<DownloadTask>,
}

impl View for TaskTable {
    type V = Seq<TaskView>;

    closed spec fn view(&self) -> Seq<TaskView> {
        task_views(self.tasks@)
    }
}

proof fn lemma_position_lookup(ts: Seq<TaskView>, id: Seq<char>)
    ensures
        match position(ts, id) {
            Some(i) => 0 <= i < ts.len() && ts[i].id == id && lookup(ts, id) == Some(ts[i])
                && forall|j: int| 0 <= j < i ==> ts[j].id != id,
            None => lookup(ts, id) is None && forall|j: int| 0 <= j < ts.len() ==> ts[j].id != id,
        },
    decreases ts.len(),
{
    if ts.len() > 0 && ts[0].id != id {
        lemma_position_lookup(ts.drop_first(), id);
        assert forall|j: int| 1 <= j < ts.len() implies ts[j] == ts.drop_first()[j - 1] by {};
    }
}

/// `lookup` in a sequence extended at the end.
proof fn lemma_lookup_push(ts: Seq<TaskView>, x: TaskView, id: Seq<char>)
    ensures
        lookup(ts.push(x), id) == (match lookup(ts, id) {
            Some(t) => Some(t),
            None => if x.id == id { Some(x) } else { None },
        }),
    decreases ts.len(),
{
    if ts.len() == 0 {
        assert(ts.push(x).drop_first() =~= Seq::<TaskView>::empty());
    } else {
        assert(ts.push(x).drop_first() =~= ts.drop_first().push(x));
        lemma_lookup_push(ts.drop_first(), x, id);
    }
}

impl TaskTable {
    /// No id occurs twice in the table.
    #[verifier::type_invariant]
    spec fn ids_distinct(self) -> bool {
        unique_ids(task_views(self.tasks@))
    }

    /// An empty table.
    pub fn new() -> (t: Self)
        ensures
            t@ == Seq::<TaskView>::empty(),
    {
        let t = TaskTable { tasks: Vec::new() };
        proof { assert(t@ =~= Seq::<TaskView>::empty()); }
        t
    }

    /// The first task with this id, as a copy.
    pub fn get(&self, id: &str) -> (r: Option<DownloadTask>)
        ensures
            match r {
                Some(t) => lookup(self@, id@) == Some(t@),
                None => lookup(self@, id@) is None,
            },
    {
        let mut i: usize = 0;
        while i < self.tasks.len()
            invariant
                i <= self.tasks.len(),
                forall|j: int| 0 <= j < i ==> self@[j].id != id@,
                self@.len() == self.tasks@.len(),
            decreases self.tasks.len() - i,
        {
            proof { assert(self@[i as int] == self.tasks@[i as int]@); }
            if str_equal(self.tasks[i].id.as_str(), id) {
                proof { lemma_position_lookup(self@, id@); lemma_position_first(self@, id@, i as int); }
                return Some(self.tasks[i].clone());
            }
            i += 1;
        }
        proof { lemma_position_lookup(self@, id@); lemma_position_none(self@, id@); }
        None
    }

    /// Copies of all tasks.
    pub fn all(&self) -> (r: Vec<DownloadTask>)
        ensures
            task_views(r@) == self@,
            unique_ids(self@),
    {
        proof { use_type_invariant(self); }
        let mut r: Vec<DownloadTask> = Vec::new();
        let mut i: usize = 0;
        while i < self.tasks.len()
            invariant
                i <= self.tasks.len(),
                task_views(r@) == self@.take(i as int),
                r@.len() == i,
                self@.len() == self.tasks@.len(),
            decreases self.tasks.len() - i,
        {
            let ghost prev = r@;
            let c = self.tasks[i].clone();
            r.push(c);
            proof {
                assert(self@[i as int] == self.tasks@[i as int]@);
                assert forall|j: int| 0 <= j < i + 1 implies
                    #[trigger] task_views(r@)[j] == self@.take(i + 1)[j] by {
                    if j < i {
                        assert(task_views(prev)[j] == self@.take(i as int)[j]);
                        assert(r@[j] == prev[j]);
                    }
                };
                assert(task_views(r@) =~= self@.take(i + 1));
            }
            i += 1;
        }
        proof { assert(self@.take(i as int) =~= self@); }
        r
    }
}

impl TaskChange {
    /// A copy of the change.
    pub fn duplicate(&self) -> (c: TaskChange)
        ensures
            c@ == self@,
    {
        match self {
            TaskChange::SetStatus(s) => TaskChange::SetStatus(*s),
            TaskChange::Fail(e) => TaskChange::Fail(e.clone()),
            TaskChange::Complete(at) => TaskChange::Complete(at.clone()),
            TaskChange::SetTotal(n) => TaskChange::SetTotal(*n),
            TaskChange::SetTotalAndDownloaded(n, d) => TaskChange::SetTotalAndDownloaded(*n, *d),
            TaskChange::SetDownloaded(d) => TaskChange::SetDownloaded(*d),
        }
    }
}

/// Makes a change to one task.
pub fn change_task(t: &mut DownloadTask, c: TaskChange)
    ensures
        final(t)@ == changed(old(t)@, c@),
{
    match c {
        TaskChange::SetStatus(s) => { t.status = s; }
        TaskChange::Fail(e) => {
            t.status = DownloadStatus::Failed;
            t.error = Some(e);
        }
        TaskChange::Complete(at) => {
            t.status = DownloadStatus::Completed;
            t.completed_at = Some(at);
            t.downloaded_size = t.total_size;
        }
        TaskChange::SetTotal(n) => { t.total_size = n; }
        TaskChange::SetTotalAndDownloaded(n, d) => {
            t.total_size = n;
            t.downloaded_size = d;
        }
        TaskChange::SetDownloaded(d) => { t.downloaded_size = d; }
    }
}

proof fn lemma_task_views_push(s: Seq<DownloadTask>, t: DownloadTask)
    ensures
        task_views(s.push(t)) == task_views(s).push(t@),
{
    assert(task_views(s.push(t)) =~= task_views(s).push(t@));
}

impl TaskTable {
    /// Stores `task`: it replaces the task with the same id, or is added at the
    /// end. Ids stay distinct.
    pub fn insert(&mut self, task: DownloadTask)
        ensures
            final(self)@ == stored(old(self)@, task@),
            unique_ids(final(self)@),
    {
        proof { use_type_invariant(&*self); }
        let ghost olds = self@;
        let mut i: usize = 0;
        while i < self.tasks.len()
            invariant
                i <= self.tasks.len(),
                self@ == olds,
                olds == old(self)@,
                unique_ids(olds),
                forall|j: int| 0 <= j < i ==> self@[j].id != task@.id,
                self@.len() == self.tasks@.len(),
            decreases self.tasks.len() - i,
        {
            proof { assert(self@[i as int] == self.tasks@[i as int]@); }
            if str_equal(self.tasks[i].id.as_str(), task.id.as_str()) {
                proof {
                    lemma_position_first(olds, task@.id, i as int);
                    lemma_stored_unique(olds, task@);
                }
                let mut v: Vec<DownloadTask> = Vec::new();
                std::mem::swap(&mut v, &mut self.tasks);
                v.set(i, task);
                proof { assert(task_views(v@) =~= olds.update(i as int, task@)); }
                self.tasks = v;
                return;
            }
            i += 1;
        }
        proof {
            lemma_position_none(olds, task@.id);
            lemma_stored_unique(olds, task@);
        }
        let mut v: Vec<DownloadTask> = Vec::new();
        std::mem::swap(&mut v, &mut self.tasks);
        let ghost before = v@;
        v.push(task);
        proof { lemma_task_views_push(before, task); }
        self.tasks = v;
    }

    /// Makes `change` to the task with this id; says whether there was one. Ids
    /// stay distinct.
    pub fn update(&mut self, id: &str, change: TaskChange) -> (found: bool)
        ensures
            final(self)@ == apply_to(old(self)@, id@, change@),
            found == lookup(old(self)@, id@) is Some,
            unique_ids(final(self)@),
    {
        proof { use_type_invariant(&*self); }
        let ghost olds = self@;
        let mut v: Vec<DownloadTask> = Vec::new();
        std::mem::swap(&mut v, &mut self.tasks);
        let mut found = false;
        let mut i: usize = 0;
        while i < v.len()
            invariant
                i <= v.len(),
                olds == old(self)@,
                olds.len() == v@.len(),
                task_views(v@) == apply_to(olds.take(i as int), id@, change@) + olds.skip(i as int),
                found == exists|j: int| 0 <= j < i && olds[j].id == id@,
            decreases v.len() - i,
        {
            proof {
                lemma_apply_to_len(olds.take(i as int), id@, change@);
                assert(task_views(v@)[i as int] == olds[i as int]);
                assert(task_views(v@)[i as int] == v@[i as int]@);
                assert(olds.take(i + 1).drop_last() =~= olds.take(i as int));
            }
            let ghost before = task_views(v@);
            let ghost a = apply_to(olds.take(i as int), id@, change@);
            let ghost x = olds[i as int];
            let ghost x2 = if x.id == id@ { changed(x, change@) } else { x };
            proof {
                assert(olds.take(i + 1).last() == x);
                assert(apply_to(olds.take(i + 1), id@, change@) == a.push(x2));
            }
            if str_equal(v[i].id.as_str(), id) {
                let mut t = v[i].clone();
                change_task(&mut t, change.duplicate());
                v.set(i, t);
                proof {
                    assert(task_views(v@) =~= before.update(i as int, x2));
                }
                found = true;
            }
            proof {
                assert(task_views(v@) =~= a.push(x2) + olds.skip(i + 1));
            }
            i += 1;
        }
        proof {
            assert(olds.take(i as int) =~= olds);
            assert(olds.skip(i as int) =~= Seq::<TaskView>::empty());
            assert(task_views(v@) =~= apply_to(olds, id@, change@));
            lemma_lookup_exists(olds, id@);
            lemma_apply_to_unique(olds, id@, change@);
        }
        self.tasks = v;
        found
    }

    /// Removes the task with this id and returns it. Ids stay distinct.
    pub fn remove(&mut self, id: &str) -> (r: Option<DownloadTask>)
        ensures
            final(self)@ == without(old(self)@, id@),
            match r {
                Some(t) => lookup(old(self)@, id@) == Some(t@),
                None => lookup(old(self)@, id@) is None,
            },
            unique_ids(final(self)@),
    {
        proof { use_type_invariant(&*self); }
        let first = self.get(id);
        let mut kept: Vec<DownloadTask> = Vec::new();
        let mut i: usize = 0;
        while i < self.tasks.len()
            invariant
                i <= self.tasks.len(),
                self@.len() == self.tasks@.len(),
                task_views(kept@) == without(self@.take(i as int), id@),
            decreases self.tasks.len() - i,
        {
            proof {
                assert(self@[i as int] == self.tasks@[i as int]@);
                assert(self@.take(i + 1).drop_last() =~= self@.take(i as int));
            }
            if !str_equal(self.tasks[i].id.as_str(), id) {
                let c = self.tasks[i].clone();
                proof { lemma_task_views_push(kept@, c); }
                kept.push(c);
            }
            i += 1;
        }
        proof {
            assert(self@.take(i as int) =~= self@);
            lemma_without_unique(self@, id@, id@);
        }
        self.tasks = kept;
        first
    }

    /// Drops every completed task. Ids stay distinct, so each id that found a
    /// task that was not completed still finds it, and every other id finds
    /// nothing (see `lemma_clear_completed_exact`).
    pub fn clear_completed(&mut self)
        ensures
            final(self)@ == uncompleted(old(self)@),
            unique_ids(old(self)@),
            unique_ids(final(self)@),
    {
        proof { use_type_invariant(&*self); }
        let mut kept: Vec<DownloadTask> = Vec::new();
        let mut i: usize = 0;
        while i < self.tasks.len()
            invariant
                i <= self.tasks.len(),
                self@.len() == self.tasks@.len(),
                task_views(kept@) == uncompleted(self@.take(i as int)),
            decreases self.tasks.len() - i,
        {
            proof {
                assert(self@[i as int] == self.tasks@[i as int]@);
                assert(self@.take(i + 1).drop_last() =~= self@.take(i as int));
            }
            if self.tasks[i].status != DownloadStatus::Completed {
                let c = self.tasks[i].clone();
                proof { lemma_task_views_push(kept@, c); }
                kept.push(c);
            }
            i += 1;
        }
        proof {
            assert(self@.take(i as int) =~= self@);
            lemma_uncompleted_unique(self@, Seq::empty());
        }
        self.tasks = kept;
    }
}

/// `Task not found`.
pub open spec fn not_found_error() -> Seq<char> {
    seq!['T', 'a', 's', 'k', ' ', 'n', 'o', 't', ' ', 'f', 'o', 'u', 'n', 'd']
}

/// `Cancelled by user`.
pub open spec fn cancelled_error() -> Seq<char> {
    seq!['C', 'a', 'n', 'c', 'e', 'l', 'l', 'e', 'd', ' ', 'b', 'y', ' ', 'u', 's', 'e', 'r']
}

impl TaskTable {
    /// Starts the task with this id: returns it as it was and marks it
    /// downloading, or reports `Task not found` and changes nothing.
    pub fn begin(&mut self, id: &str) -> (r: Result<DownloadTask, String>)
        ensures
            match r {
                Ok(t) => lookup(old(self)@, id@) == Some(t@)
                    && final(self)@ == apply_to(old(self)@, id@, ChangeView::SetStatus(DownloadStatus::Downloading)),
                Err(e) => lookup(old(self)@, id@) is None && e@ == not_found_error()
                    && final(self)@ == old(self)@,
            },
    {
        match self.get(id) {
            None => Err(string_of(vec!['T', 'a', 's', 'k', ' ', 'n', 'o', 't', ' ', 'f', 'o', 'u', 'n', 'd'])),
            Some(t) => {
                self.update(id, TaskChange::SetStatus(DownloadStatus::Downloading));
                Ok(t)
            },
        }
    }

    /// Cancels the task with this id: it fails with `Cancelled by user`. Returns the
    /// path of its file, whose data is then removed, when there was such a task.
    pub fn cancel(&mut self, id: &str) -> (path: Option<String>)
        ensures
            final(self)@ == apply_to(old(self)@, id@, ChangeView::Fail(cancelled_error())),
            match path {
                Some(p) => lookup(old(self)@, id@) matches Some(t) && p@ == t.save_path,
                None => lookup(old(self)@, id@) is None,
            },
    {
        let found = self.get(id);
        let e = string_of(vec!['C', 'a', 'n', 'c', 'e', 'l', 'l', 'e', 'd', ' ', 'b', 'y', ' ', 'u', 's', 'e', 'r']);
        self.update(id, TaskChange::Fail(e));
        match found {
            Some(t) => Some(t.save_path),
            None => None,
        }
    }
}

proof fn lemma_lookup_update_first(ts: Seq<TaskView>, i: int, t: TaskView, k: Seq<char>)
    requires
        position(ts, t.id) == Some(i),
    ensures
        lookup(ts.update(i, t), t.id) == Some(t),
        k != t.id ==> lookup(ts.update(i, t), k) == lookup(ts, k),
{
    lemma_position_lookup(ts, t.id);
    let u = ts.update(i, t);
    lemma_position_first(u, t.id, i);
    if k != t.id {
        lemma_position_lookup(ts, k);
        match position(ts, k) {
            Some(p) => {
                assert(p != i);
                lemma_position_first(u, k, p);
            },
            None => {
                lemma_position_none(u, k);
            },
        }
    }
}

/// Storing a task and reading it back: its id now finds it, every other id
/// finds what it found before.
pub proof fn lemma_lookup_stored(ts: Seq<TaskView>, t: TaskView, k: Seq<char>)
    ensures
        lookup(stored(ts, t), t.id) == Some(t),
        k != t.id ==> lookup(stored(ts, t), k) == lookup(ts, k),
{
    match position(ts, t.id) {
        Some(i) => lemma_lookup_update_first(ts, i, t, k),
        None => {
            lemma_position_lookup(ts, t.id);
            lemma_lookup_push(ts, t, t.id);
            lemma_lookup_push(ts, t, k);
        },
    }
}

/// Changing a task: its id now finds the changed task (or still nothing), every
/// other id finds what it found before.
pub proof fn lemma_lookup_applied(ts: Seq<TaskView>, id: Seq<char>, c: ChangeView, k: Seq<char>)
    ensures
        lookup(apply_to(ts, id, c), k) == (if k == id {
            match lookup(ts, id) {
                Some(x) => Some(changed(x, c)),
                None => None,
            }
        } else {
            lookup(ts, k)
        }),
    decreases ts.len(),
{
    if ts.len() > 0 {
        let init = ts.drop_last();
        let x = ts.last();
        lemma_lookup_applied(init, id, c, k);
        let x2 = if x.id == id { changed(x, c) } else { x };
        lemma_lookup_push(apply_to(init, id, c), x2, k);
        assert(init.push(x) =~= ts);
        lemma_lookup_push(init, x, k);
        lemma_lookup_push(init, x, id);
    }
}

/// Removing a task: its id finds nothing any more, every other id finds what it
/// found before.
pub proof fn lemma_lookup_without(ts: Seq<TaskView>, id: Seq<char>, k: Seq<char>)
    ensures
        lookup(without(ts, id), id) is None,
        k != id ==> lookup(without(ts, id), k) == lookup(ts, k),
    decreases ts.len(),
{
    if ts.len() > 0 {
        let init = ts.drop_last();
        let x = ts.last();
        lemma_lookup_without(init, id, k);
        assert(init.push(x) =~= ts);
        lemma_lookup_push(init, x, k);
        if x.id != id {
            lemma_lookup_push(without(init, id), x, k);
            lemma_lookup_push(without(init, id), x, id);
        }
    }
}

/// Clearing completed tasks: no id finds a completed task afterwards, and an id
/// that found a task that was not completed still finds it.
pub proof fn lemma_lookup_uncompleted(ts: Seq<TaskView>, k: Seq<char>)
    ensures
        lookup(uncompleted(ts), k) matches Some(x) ==> x.status != DownloadStatus::Completed,
        lookup(ts, k) matches Some(x) ==> (x.status != DownloadStatus::Completed
            ==> lookup(uncompleted(ts), k) == Some(x)),
        lookup(ts, k) is None ==> lookup(uncompleted(ts), k) is None,
    decreases ts.len(),
{
    if ts.len() > 0 {
        let init = ts.drop_last();
        let x = ts.last();
        lemma_lookup_uncompleted(init, k);
        assert(init.push(x) =~= ts);
        lemma_lookup_push(init, x, k);
        if x.status != DownloadStatus::Completed {
            lemma_lookup_push(uncompleted(init), x, k);
        }
    }
}

/// A change keeps the task's id.
proof fn lemma_apply_to_ids(ts: Seq<TaskView>, id: Seq<char>, c: ChangeView)
    ensures
        apply_to(ts, id, c).len() == ts.len(),
        forall|j: int| 0 <= j < ts.len() ==> #[trigger] apply_to(ts, id, c)[j].id == ts[j].id,
    decreases ts.len(),
{
    if ts.len() > 0 {
        lemma_apply_to_ids(ts.drop_last(), id, c);
        assert forall|j: int| 0 <= j < ts.len() implies #[trigger] apply_to(ts, id, c)[j].id == ts[j].id by {
            if j < ts.len() - 1 {
                assert(apply_to(ts, id, c)[j] == apply_to(ts.drop_last(), id, c)[j]);
            }
        };
    }
}

proof fn lemma_unique_drop_last(ts: Seq<TaskView>)
    requires
        ts.len() > 0,
        unique_ids(ts),
    ensures
        unique_ids(ts.drop_last()),
        id_absent(ts.drop_last(), ts.last().id),
{
    assert forall|i: int, j: int| 0 <= i < j < ts.drop_last().len()
        implies #[trigger] ts.drop_last()[i].id != #[trigger] ts.drop_last()[j].id by {
        assert(ts[i].id != ts[j].id);
    };
    assert forall|j: int| 0 <= j < ts.drop_last().len() implies #[trigger] ts.drop_last()[j].id != ts.last().id by {
        assert(ts[j].id != ts[ts.len() - 1].id);
    };
}

proof fn lemma_unique_push(ts: Seq<TaskView>, x: TaskView)
    requires
        unique_ids(ts),
        id_absent(ts, x.id),
    ensures
        unique_ids(ts.push(x)),
{
    assert forall|i: int, j: int| 0 <= i < j < ts.push(x).len()
        implies #[trigger] ts.push(x)[i].id != #[trigger] ts.push(x)[j].id by {
        if j == ts.len() {
            assert(ts[i].id != x.id);
        } else {
            assert(ts[i].id != ts[j].id);
        }
    };
}

/// Removing the tasks of one id keeps ids distinct and brings in no new id.
proof fn lemma_without_unique(ts: Seq<TaskView>, id: Seq<char>, k: Seq<char>)
    requires
        unique_ids(ts),
    ensures
        unique_ids(without(ts, id)),
        id_absent(ts, k) ==> id_absent(without(ts, id), k),
    decreases ts.len(),
{
    if ts.len() > 0 {
        let init = ts.drop_last();
        lemma_unique_drop_last(ts);
        lemma_without_unique(init, id, k);
        lemma_without_unique(init, id, ts.last().id);
        if id_absent(ts, k) {
            assert forall|j: int| 0 <= j < init.len() implies #[trigger] init[j].id != k by {
                assert(ts[j] == init[j]);
            };
            assert(ts[ts.len() - 1].id != k);
        }
        if ts.last().id != id {
            lemma_unique_push(without(init, id), ts.last());
        }
    }
}

/// Dropping completed tasks keeps ids distinct and brings in no new id.
proof fn lemma_uncompleted_unique(ts: Seq<TaskView>, k: Seq<char>)
    requires
        unique_ids(ts),
    ensures
        unique_ids(uncompleted(ts)),
        id_absent(ts, k) ==> id_absent(uncompleted(ts), k),
    decreases ts.len(),
{
    if ts.len() > 0 {
        let init = ts.drop_last();
        lemma_unique_drop_last(ts);
        lemma_uncompleted_unique(init, k);
        lemma_uncompleted_unique(init, ts.last().id);
        if id_absent(ts, k) {
            assert forall|j: int| 0 <= j < init.len() implies #[trigger] init[j].id != k by {
                assert(ts[j] == init[j]);
            };
            assert(ts[ts.len() - 1].id != k);
        }
        if ts.last().status != DownloadStatus::Completed {
            lemma_unique_push(uncompleted(init), ts.last());
        }
    }
}

/// Changing the tasks of one id keeps ids distinct.
proof fn lemma_apply_to_unique(ts: Seq<TaskView>, id: Seq<char>, c: ChangeView)
    requires
        unique_ids(ts),
    ensures
        unique_ids(apply_to(ts, id, c)),
{
    lemma_apply_to_ids(ts, id, c);
    let u = apply_to(ts, id, c);
    assert forall|i: int, j: int| 0 <= i < j < u.len() implies #[trigger] u[i].id != #[trigger] u[j].id by {
        assert(ts[i].id != ts[j].id);
    };
}

/// Storing a task keeps ids distinct.
proof fn lemma_stored_unique(ts: Seq<TaskView>, t: TaskView)
    requires
        unique_ids(ts),
    ensures
        unique_ids(stored(ts, t)),
{
    lemma_position_lookup(ts, t.id);
    match position(ts, t.id) {
        Some(p) => {
            let u = ts.update(p, t);
            assert forall|i: int, j: int| 0 <= i < j < u.len() implies #[trigger] u[i].id != #[trigger] u[j].id by {
                assert(ts[i].id != ts[j].id);
                if i == p { assert(ts[j].id != ts[p].id); }
                if j == p { assert(ts[i].id != ts[p].id); }
            };
        },
        None => {
            lemma_unique_push(ts, t);
        },
    }
}

/// With ids distinct, clearing completed tasks is exact per id: an id finds its
/// task afterwards when that task was not completed, and nothing otherwise.
pub proof fn lemma_clear_completed_exact(ts: Seq<TaskView>, k: Seq<char>)
    requires
        unique_ids(ts),
    ensures
        lookup(uncompleted(ts), k) == (match lookup(ts, k) {
            Some(x) => if x.status != DownloadStatus::Completed { Some(x) } else { None },
            None => None,
        }),
    decreases ts.len(),
{
    lemma_lookup_uncompleted(ts, k);
    if ts.len() > 0 {
        let init = ts.drop_last();
        let x = ts.last();
        lemma_unique_drop_last(ts);
        lemma_clear_completed_exact(init, k);
        assert(init.push(x) =~= ts);
        lemma_lookup_push(init, x, k);
        lemma_position_lookup(init, k);
        if x.status != DownloadStatus::Completed {
            lemma_lookup_push(uncompleted(init), x, k);
        }
        if x.id == k {
            // `k` occurs only at the end, so `init` knows nothing of it
            lemma_position_none(init, k);
            lemma_uncompleted_unique(init, k);
            lemma_position_none(uncompleted(init), k);
        }
    }
}

proof fn lemma_apply_to_len(ts: Seq<TaskView>, id: Seq<char>, c: ChangeView)
    ensures
        apply_to(ts, id, c).len() == ts.len(),
    decreases ts.len(),
{
    if ts.len() > 0 {
        lemma_apply_to_len(ts.drop_last(), id, c);
    }
}

proof fn lemma_lookup_exists(ts: Seq<TaskView>, id: Seq<char>)
    ensures
        lookup(ts, id) is Some <==> exists|j: int| 0 <= j < ts.len() && ts[j].id == id,
{
    lemma_position_lookup(ts, id);
}


proof fn lemma_position_first(ts: Seq<TaskView>, id: Seq<char>, i: int)
    requires
        0 <= i < ts.len(),
        ts[i].id == id,
        forall|j: int| 0 <= j < i ==> ts[j].id != id,
    ensures
        position(ts, id) == Some(i),
        lookup(ts, id) == Some(ts[i]),
    decreases ts.len(),
{
    if i > 0 {
        lemma_position_first(ts.drop_first(), id, i - 1);
    }
}

proof fn lemma_position_none(ts: Seq<TaskView>, id: Seq<char>)
    requires
        forall|j: int| 0 <= j < ts.len() ==> ts[j].id != id,
    ensures
        position(ts, id) is None,
        lookup(ts, id) is None,
    decreases ts.len(),
{
    if ts.len() > 0 {
        lemma_position_none(ts.drop_first(), id);
    }
}

} // verus!
