//! The boards: quests and their tasks, and the private board of each account.

use crate::credits::share;
use crate::directory::{Directory, DirectoryModel};
use crate::order::{arrange, by_rank, newest_first, oldest_first, RankKey};
use crate::ordmap::{list_at, values_of};
use crate::records::{HordeResult, HordeTask, Quest, Str, Task};
use crate::seqs::{lemma_filter_none, lemma_filter_step};
use crate::text::{contains_string, same, texts};
use vstd::prelude::*;

verus! {

/// Where a task stands.
#[derive(Debug, Clone, Copy, PartialEq, Eq, Structural)]
pub enum TaskStatus {
    Open,
    Claimed,
    /// There is a result, but nobody accepted or vouched for it enough yet.
    Pending,
    Solved,
}

impl TaskStatus {
    pub open spec fn name(self) -> Str {
        match self {
            TaskStatus::Open => "open"@,
            TaskStatus::Claimed => "claimed"@,
            TaskStatus::Pending => "pending"@,
            TaskStatus::Solved => "solved"@,
        }
    }

    /// The status in a word.
    pub fn label(&self) -> (r: &'static str)
        ensures
            r@ == self.name(),
    {
        match self {
            TaskStatus::Open => "open",
            TaskStatus::Claimed => "claimed",
            TaskStatus::Pending => "pending",
            TaskStatus::Solved => "solved",
        }
    }
}

/// Where a quest stands. Whether it is done follows from its tasks, never from the
/// closer's word.
#[derive(Debug, Clone, Copy, PartialEq, Eq, Structural)]
pub enum QuestStatus {
    /// Work remains.
    Open,
    /// Every task is settled; the quest may be closed.
    Complete,
    /// Closed with every task settled.
    Completed,
    /// Closed with a task that never settled.
    Withdrawn,
}

impl QuestStatus {
    pub open spec fn name(self) -> Str {
        match self {
            QuestStatus::Open => "open"@,
            QuestStatus::Complete => "complete"@,
            QuestStatus::Completed => "completed"@,
            QuestStatus::Withdrawn => "withdrawn"@,
        }
    }

    /// The status in a word.
    pub fn label(&self) -> (r: &'static str)
        ensures
            r@ == self.name(),
    {
        match self {
            QuestStatus::Open => "open",
            QuestStatus::Complete => "complete",
            QuestStatus::Completed => "completed",
            QuestStatus::Withdrawn => "withdrawn",
        }
    }
}

/// A piece of an account's own work, as it is shown.
pub struct HordeView<'a> {
    pub task: &'a HordeTask,
    pub status: TaskStatus,
    /// Who holds it.
    pub claimant: Option<&'a String>,
    /// Who answered it last, and with what.
    pub worker: Option<&'a String>,
    pub output: Option<&'a String>,
}

/// A run: the pieces of work posted under one name.
pub struct HordeRun<'a> {
    pub total: usize,
    pub solved: usize,
    pub complete: bool,
    pub tasks: Vec<HordeView<'a>>,
}

/// A quest on the public board.
pub struct QuestCard<'a> {
    pub quest: &'a Quest,
    pub open_tasks: usize,
    pub boost: u64,
}

/// A task of a quest, as it is shown.
pub struct TaskState<'a> {
    pub task: &'a Task,
    pub status: TaskStatus,
    /// Who holds it.
    pub claimant: Option<&'a String>,
    /// How many results it has.
    pub results: usize,
    /// The account that solved it.
    pub solver: Option<String>,
}

/// A quest, as it is shown in full.
pub struct QuestState<'a> {
    pub quest: &'a Quest,
    pub per_task: u64,
    pub tasks: Vec<TaskState<'a>>,
    pub status: QuestStatus,
    pub closed_ts: Option<i64>,
}

impl DirectoryModel {
    pub open spec fn horde_results_of(self, task: Str) -> Seq<HordeResult> {
        list_at(self.catalog.horde_results, task)
    }

    /// Where a piece of the account's own work stands.
    pub open spec fn horde_standing(self, task: Str, now: i64) -> TaskStatus {
        if self.horde_results_of(task).len() > 0 {
            TaskStatus::Solved
        } else if self.horde_claim_on(task, now) is Some {
            TaskStatus::Claimed
        } else {
            TaskStatus::Open
        }
    }

    /// `v` shows the piece of work `t` as it is at `now`.
    pub open spec fn shows_horde_task(self, v: HordeView, t: HordeTask, now: i64) -> bool {
        &&& *v.task == t
        &&& v.status == self.horde_standing(t.id@, now)
        &&& match self.horde_claim_on(t.id@, now) {
            Some(c) => v.claimant == Some(&c.worker),
            None => v.claimant is None,
        }
        &&& if self.horde_results_of(t.id@).len() > 0 {
            let last = self.horde_results_of(t.id@).last();
            v.worker == Some(&last.worker) && v.output == Some(&last.output)
        } else {
            v.worker is None && v.output is None
        }
    }

    /// The piece of work was posted by an agent of the same account, and under this run
    /// where one is asked for.
    pub open spec fn on_board(self, t: HordeTask, agent: Str, run: Option<Str>) -> bool {
        &&& self.unit(t.author@) == self.unit(agent)
        &&& run matches Some(r) ==> t.run@ == r
    }

    /// The open work on the board of the agent's account, newest first.
    pub open spec fn horde_board(self, agent: Str, run: Option<Str>, now: i64) -> Seq<HordeTask> {
        let open = values_of(self.catalog.horde_tasks).filter(
            |t: HordeTask|
                self.on_board(t, agent, run) && self.horde_standing(t.id@, now) == TaskStatus::Open,
        );
        by_rank(open, open.map_values(|t: HordeTask| newest_first(t.created_ts)))
    }

    /// The work of one run on the board of the agent's account, oldest first.
    pub open spec fn run_tasks(self, agent: Str, run: Str) -> Seq<HordeTask> {
        let all = values_of(self.catalog.horde_tasks).filter(|t: HordeTask| self.on_board(t, agent, Some(run)));
        by_rank(all, all.map_values(|t: HordeTask| oldest_first(t.created_ts)))
    }

    /// What is solved of a run.
    pub open spec fn run_solved(self, agent: Str, run: Str, now: i64) -> Seq<HordeTask> {
        self.run_tasks(agent, run).filter(|t: HordeTask| self.horde_standing(t.id@, now) == TaskStatus::Solved)
    }

    /// All of a run is solved, and there is something in it.
    pub open spec fn run_complete(self, agent: Str, run: Str, now: i64) -> bool {
        &&& self.run_tasks(agent, run).len() > 0
        &&& self.run_solved(agent, run, now).len() == self.run_tasks(agent, run).len()
    }

    /// The task is to be had: not settled, without a result, and held by nobody.
    pub open spec fn is_open(self, quest: Str, task: Str, now: i64) -> bool {
        &&& self.settlement(quest, task) is None
        &&& self.results_of(quest, task).len() == 0
        &&& self.claim_on(quest, task, now) is None
    }

    /// The tasks of a quest that are to be had.
    pub open spec fn open_tasks(self, q: Quest, now: i64) -> Seq<Task> {
        q.tasks@.filter(|t: Task| self.is_open(q.id@, t.id@, now))
    }

    /// Every task is settled, and there is one.
    pub open spec fn all_settled(self, quest: Str, tasks: Seq<Task>) -> bool {
        &&& tasks.len() > 0
        &&& forall|i: int| 0 <= i < tasks.len() ==> self.settlement(quest, (#[trigger] tasks[i]).id@) is Some
    }

    /// Where a task of a quest stands.
    pub open spec fn task_standing(self, quest: Str, task: Str, now: i64) -> TaskStatus {
        if self.settlement(quest, task) is Some {
            TaskStatus::Solved
        } else if self.results_of(quest, task).len() > 0 {
            TaskStatus::Pending
        } else if self.claim_on(quest, task, now) is Some {
            TaskStatus::Claimed
        } else {
            TaskStatus::Open
        }
    }

    /// Where a quest stands.
    pub open spec fn quest_standing(self, quest: Str, q: Quest) -> QuestStatus {
        let done = self.all_settled(quest, q.tasks@);
        if self.catalog.closed.contains_key(quest) {
            if done {
                QuestStatus::Completed
            } else {
                QuestStatus::Withdrawn
            }
        } else if done {
            QuestStatus::Complete
        } else {
            QuestStatus::Open
        }
    }

    /// `s` shows the task `t` of a quest as it is at `now`.
    pub open spec fn shows_task(self, s: TaskState, quest: Str, t: Task, now: i64) -> bool {
        &&& *s.task == t
        &&& s.status == self.task_standing(quest, t.id@, now)
        &&& s.results == self.results_of(quest, t.id@).len()
        &&& match self.claim_on(quest, t.id@, now) {
            Some(c) => s.claimant == Some(&c.worker),
            None => s.claimant is None,
        }
        &&& match (self.settlement(quest, t.id@), s.solver) {
            (Some(x), Some(solver)) => solver@ == x.0,
            (None, None) => true,
            _ => false,
        }
    }

    /// The quest is on the board at `now`: open, not expired, with the sigil asked for,
    /// and with a task to be had.
    pub open spec fn on_offer(self, q: Quest, sigil: Option<Str>, now: i64) -> bool {
        &&& self.live(q, now)
        &&& sigil matches Some(s) ==> texts(q.sigils@).contains(s)
        &&& self.open_tasks(q, now).len() > 0
    }

    /// The board that workers scan: boosted quests first, then the newest.
    pub open spec fn quest_board(self, sigil: Option<Str>, now: i64) -> Seq<Quest> {
        let offers = values_of(self.catalog.quests).filter(|q: Quest| self.on_offer(q, sigil, now));
        by_rank(
            offers,
            offers.map_values(
                |q: Quest| RankKey { first: self.boost_of(q.id@) as i128, second: q.created_ts as i128, third: 0 },
            ),
        )
    }
}

/// The text of an optional string.
pub open spec fn opt_text(o: Option<&String>) -> Option<Str> {
    match o {
        Some(s) => Some(s@),
        None => None,
    }
}

impl Directory {
    /// Where a piece of the account's own work stands: solved once it has a result, else
    /// claimed while a lease is live, else open.
    pub fn horde_status(&self, task: &str, now: i64) -> (r: TaskStatus)
        ensures
            r == self@.horde_standing(task@, now),
    {
        if self.catalog.horde_results.count(task) > 0 {
            TaskStatus::Solved
        } else if self.active_horde_claim(task, now).is_some() {
            TaskStatus::Claimed
        } else {
            TaskStatus::Open
        }
    }

    /// A piece of the account's own work, as it is shown.
    pub fn horde_view<'a>(&'a self, t: &'a HordeTask, now: i64) -> (r: HordeView<'a>)
        ensures
            self@.shows_horde_task(r, *t, now),
    {
        let id = t.id.as_str();
        let status = self.horde_status(id, now);
        let claimant: Option<&'a String> = match self.active_horde_claim(id, now) {
            Some(c) => Some(&c.worker),
            None => None,
        };
        let (worker, output): (Option<&'a String>, Option<&'a String>) = match self.catalog.horde_results.list(id) {
            Some(list) => {
                let n = list.len();
                if n > 0 {
                    (Some(&list[n - 1].worker), Some(&list[n - 1].output))
                } else {
                    (None, None)
                }
            },
            None => (None, None),
        };
        HordeView { task: t, status, claimant, worker, output }
    }

    fn is_on_board(&self, t: &HordeTask, unit: &str, agent: &str, run: Option<&String>) -> (r: bool)
        requires
            unit@ == self@.unit(agent@),
        ensures
            r == self@.on_board(*t, agent@, opt_text(run)),
    {
        same(self.acct(t.author.as_str()).as_str(), unit) && match run {
            Some(r) => same(t.run.as_str(), r.as_str()),
            None => true,
        }
    }

    fn horde_views<'a>(&'a self, tasks: &Vec<&'a HordeTask>, now: i64) -> (r: Vec<HordeView<'a>>)
        ensures
            r.len() == tasks.len(),
            forall|i: int| 0 <= i < r.len() ==> self@.shows_horde_task(#[trigger] r@[i], *tasks@[i], now),
    {
        let mut out: Vec<HordeView<'a>> = Vec::new();
        let mut i: usize = 0;
        while i < tasks.len()
            invariant
                0 <= i <= tasks.len(),
                out.len() == i,
                forall|j: int| 0 <= j < i ==> self@.shows_horde_task(#[trigger] out@[j], *tasks@[j], now),
            decreases tasks.len() - i,
        {
            out.push(self.horde_view(tasks[i], now));
            i = i + 1;
        }
        out
    }

    /// The open work on the board of the agent's account, newest first. Other accounts'
    /// work is not shown.
    pub fn horde_tasks<'a>(&'a self, agent: &str, run: Option<&String>, now: i64) -> (r: Vec<HordeView<'a>>)
        ensures
            r.len() == self@.horde_board(agent@, opt_text(run), now).len(),
            forall|i: int|
                0 <= i < r.len() ==> self@.shows_horde_task(
                    #[trigger] r@[i],
                    self@.horde_board(agent@, opt_text(run), now)[i],
                    now,
                ),
    {
        let unit = self.acct(agent);
        let ghost wanted = opt_text(run);
        let ghost p = |t: HordeTask|
            self@.on_board(t, agent@, wanted) && self@.horde_standing(t.id@, now) == TaskStatus::Open;
        let all = self.catalog.horde_tasks.values();
        let ghost m = all@.unref();
        let mut open: Vec<&'a HordeTask> = Vec::new();
        let mut keys: Vec<RankKey> = Vec::new();
        let mut i: usize = 0;
        proof {
            lemma_filter_none(m, p);
            assert(open@.unref() =~= m.take(0).filter(p));
            assert(keys@ =~= m.take(0).filter(p).map_values(|t: HordeTask| newest_first(t.created_ts)));
        }
        while i < all.len()
            invariant
                0 <= i <= all.len(),
                m == all@.unref(),
                unit@ == self@.unit(agent@),
                wanted == opt_text(run),
                p == (|t: HordeTask|
                    self@.on_board(t, agent@, wanted) && self@.horde_standing(t.id@, now) == TaskStatus::Open),
                open@.unref() == m.take(i as int).filter(p),
                keys@ == m.take(i as int).filter(p).map_values(|t: HordeTask| newest_first(t.created_ts)),
            decreases all.len() - i,
        {
            proof {
                lemma_filter_step(m, p, i as int);
            }
            let t = all[i];
            if self.is_on_board(t, unit.as_str(), agent, run) && self.horde_status(t.id.as_str(), now) == TaskStatus::Open {
                let ghost prev = open@;
                open.push(t);
                keys.push(RankKey { first: t.created_ts as i128, second: 0, third: 0 });
                assert(open@.unref() =~= prev.unref().push(m[i as int]));
                assert(keys@ =~= m.take(i + 1).filter(p).map_values(|t: HordeTask| newest_first(t.created_ts)));
            }
            i = i + 1;
        }
        assert(m.take(i as int) =~= m);
        assert(keys@.len() == open@.unref().len());
        let ordered = arrange(&open, &keys);
        let out = self.horde_views(&ordered, now);
        assert(ordered@.unref().len() == ordered@.len());
        assert forall|i: int| 0 <= i < out.len() implies self@.shows_horde_task(
            #[trigger] out@[i],
            self@.horde_board(agent@, opt_text(run), now)[i],
            now,
        ) by {
            assert(ordered@.unref()[i] == *ordered@[i]);
        }
        out
    }

    /// A run on the board of the agent's account, oldest first, with how much of it is
    /// solved.
    pub fn horde_run<'a>(&'a self, agent: &str, run: &String, now: i64) -> (r: HordeRun<'a>)
        ensures
            r.total == self@.run_tasks(agent@, run@).len(),
            r.tasks.len() == r.total,
            forall|i: int|
                0 <= i < r.tasks.len() ==> self@.shows_horde_task(
                    #[trigger] r.tasks@[i],
                    self@.run_tasks(agent@, run@)[i],
                    now,
                ),
            r.solved == self@.run_tasks(agent@, run@).filter(
                |t: HordeTask| self@.horde_standing(t.id@, now) == TaskStatus::Solved,
            ).len(),
            r.complete == (r.total > 0 && r.solved == r.total),
            r.solved == self@.run_solved(agent@, run@, now).len(),
            r.complete == self@.run_complete(agent@, run@, now),
    {
        let unit = self.acct(agent);
        let ghost wanted = Some(run@);
        let ghost p = |t: HordeTask| self@.on_board(t, agent@, wanted);
        let all = self.catalog.horde_tasks.values();
        let ghost m = all@.unref();
        let mut mine: Vec<&'a HordeTask> = Vec::new();
        let mut keys: Vec<RankKey> = Vec::new();
        let mut i: usize = 0;
        proof {
            lemma_filter_none(m, p);
            assert(mine@.unref() =~= m.take(0).filter(p));
            assert(keys@ =~= m.take(0).filter(p).map_values(|t: HordeTask| oldest_first(t.created_ts)));
        }
        while i < all.len()
            invariant
                0 <= i <= all.len(),
                m == all@.unref(),
                unit@ == self@.unit(agent@),
                wanted == Some(run@),
                p == (|t: HordeTask| self@.on_board(t, agent@, wanted)),
                mine@.unref() == m.take(i as int).filter(p),
                keys@ == m.take(i as int).filter(p).map_values(|t: HordeTask| oldest_first(t.created_ts)),
            decreases all.len() - i,
        {
            proof {
                lemma_filter_step(m, p, i as int);
            }
            let t = all[i];
            if self.is_on_board(t, unit.as_str(), agent, Some(run)) {
                let ghost prev = mine@;
                mine.push(t);
                keys.push(RankKey { first: -(t.created_ts as i128), second: 0, third: 0 });
                assert(mine@.unref() =~= prev.unref().push(m[i as int]));
                assert(keys@ =~= m.take(i + 1).filter(p).map_values(|t: HordeTask| oldest_first(t.created_ts)));
            }
            i = i + 1;
        }
        assert(m.take(i as int) =~= m);
        assert(keys@.len() == mine@.unref().len());
        let ordered = arrange(&mine, &keys);
        let tasks = self.horde_views(&ordered, now);
        let ghost board = self@.run_tasks(agent@, run@);
        assert(ordered@.unref() == board);
        assert(ordered@.unref().len() == ordered@.len());
        let ghost q = |t: HordeTask| self@.horde_standing(t.id@, now) == TaskStatus::Solved;
        let mut solved: usize = 0;
        let mut i: usize = 0;
        proof {
            lemma_filter_none(board, q);
        }
        while i < tasks.len()
            invariant
                0 <= i <= tasks.len(),
                tasks.len() == board.len(),
                tasks.len() == ordered.len(),
                ordered@.unref() == board,
                q == (|t: HordeTask| self@.horde_standing(t.id@, now) == TaskStatus::Solved),
                forall|j: int| 0 <= j < tasks.len() ==> self@.shows_horde_task(#[trigger] tasks@[j], *ordered@[j], now),
                solved == board.take(i as int).filter(q).len(),
                solved <= i,
            decreases tasks.len() - i,
        {
            proof {
                lemma_filter_step(board, q, i as int);
                assert(board[i as int] == *ordered@[i as int]);
            }
            if tasks[i].status == TaskStatus::Solved {
                solved = solved + 1;
            }
            i = i + 1;
        }
        assert(board.take(i as int) =~= board);
        let total = tasks.len();
        HordeRun { total, solved, complete: total > 0 && solved == total, tasks }
    }

    /// How many tasks of a quest are to be had.
    pub fn open_task_count(&self, q: &Quest, now: i64) -> (r: usize)
        ensures
            r == self@.open_tasks(*q, now).len(),
    {
        let ghost p = |t: Task| self@.is_open(q.id@, t.id@, now);
        let ghost all = q.tasks@;
        let mut n: usize = 0;
        let mut i: usize = 0;
        proof {
            lemma_filter_none(all, p);
        }
        while i < q.tasks.len()
            invariant
                0 <= i <= q.tasks.len(),
                all == q.tasks@,
                p == (|t: Task| self@.is_open(q.id@, t.id@, now)),
                n == all.take(i as int).filter(p).len(),
                n <= i,
            decreases q.tasks.len() - i,
        {
            proof {
                lemma_filter_step(all, p, i as int);
            }
            let quest = q.id.as_str();
            let task = q.tasks[i].id.as_str();
            if self.task_settlement(quest, task).is_none() && self.catalog.results.count(quest, task) == 0
                && self.active_claim(quest, task, now).is_none() {
                n = n + 1;
            }
            i = i + 1;
        }
        assert(all.take(i as int) =~= all);
        n
    }

    /// Whether every task of a quest is settled, and there is one.
    pub fn is_all_settled(&self, quest: &str, q: &Quest) -> (r: bool)
        ensures
            r == self@.all_settled(quest@, q.tasks@),
    {
        let mut i: usize = 0;
        while i < q.tasks.len()
            invariant
                0 <= i <= q.tasks.len(),
                forall|j: int| 0 <= j < i ==> self@.settlement(quest@, (#[trigger] q.tasks@[j]).id@) is Some,
            decreases q.tasks.len() - i,
        {
            if self.task_settlement(quest, q.tasks[i].id.as_str()).is_none() {
                assert(self@.settlement(quest@, q.tasks@[i as int].id@) is None);
                return false;
            }
            i = i + 1;
        }
        q.tasks.len() > 0
    }

    fn task_state<'a>(&'a self, quest: &str, t: &'a Task, now: i64) -> (r: TaskState<'a>)
        ensures
            self@.shows_task(r, quest@, *t, now),
    {
        let id = t.id.as_str();
        let results = self.catalog.results.count(quest, id);
        let claim = self.active_claim(quest, id, now);
        let settled = self.task_settlement(quest, id);
        let status = if settled.is_some() {
            TaskStatus::Solved
        } else if results > 0 {
            TaskStatus::Pending
        } else if claim.is_some() {
            TaskStatus::Claimed
        } else {
            TaskStatus::Open
        };
        let claimant: Option<&'a String> = match claim {
            Some(c) => Some(&c.worker),
            None => None,
        };
        let solver: Option<String> = match settled {
            Some((s, _)) => Some(s),
            None => None,
        };
        TaskState { task: t, status, claimant, results, solver }
    }

    /// A quest in full: each task with its standing, and where the quest stands. Nothing
    /// where there is no such quest.
    pub fn quest_state<'a>(&'a self, quest: &str, now: i64) -> (r: Option<QuestState<'a>>)
        ensures
            match r {
                None => !self@.catalog.quests.contains_key(quest@),
                Some(s) => {
                    &&& self@.catalog.quests.contains_key(quest@)
                    &&& *s.quest == self@.catalog.quests[quest@]
                    &&& s.per_task == share(*s.quest)
                    &&& s.tasks.len() == s.quest.tasks.len()
                    &&& forall|i: int|
                        0 <= i < s.tasks.len() ==> self@.shows_task(#[trigger] s.tasks@[i], quest@, s.quest.tasks@[i], now)
                    &&& s.status == self@.quest_standing(quest@, *s.quest)
                    &&& s.closed_ts is Some <==> self@.catalog.closed.contains_key(quest@)
                    &&& s.closed_ts matches Some(ts) ==> ts == self@.catalog.closed[quest@]
                },
            },
    {
        match self.catalog.quests.get(quest) {
            None => None,
            Some(q) => {
                let mut tasks: Vec<TaskState<'a>> = Vec::new();
                let mut i: usize = 0;
                while i < q.tasks.len()
                    invariant
                        0 <= i <= q.tasks.len(),
                        tasks.len() == i,
                        forall|j: int| 0 <= j < i ==> self@.shows_task(#[trigger] tasks@[j], quest@, q.tasks@[j], now),
                    decreases q.tasks.len() - i,
                {
                    tasks.push(self.task_state(quest, &q.tasks[i], now));
                    i = i + 1;
                }
                let closed_ts: Option<i64> = match self.catalog.closed.get(quest) {
                    Some(ts) => Some(*ts),
                    None => None,
                };
                let done = self.is_all_settled(quest, q);
                let status = if closed_ts.is_some() {
                    if done {
                        QuestStatus::Completed
                    } else {
                        QuestStatus::Withdrawn
                    }
                } else if done {
                    QuestStatus::Complete
                } else {
                    QuestStatus::Open
                };
                Some(QuestState { quest: q, per_task: self.per_task(q), tasks, status, closed_ts })
            },
        }
    }

    /// The board that workers scan: the live quests with work left, matched to a sigil
    /// where one is asked for, boosted ones first, then the newest.
    pub fn quests<'a>(&'a self, sigil: Option<&String>, now: i64) -> (r: Vec<QuestCard<'a>>)
        ensures
            r.len() == self@.quest_board(opt_text(sigil), now).len(),
            forall|i: int|
                0 <= i < r.len() ==> {
                    let q = self@.quest_board(opt_text(sigil), now)[i];
                    &&& *(#[trigger] r@[i]).quest == q
                    &&& r@[i].open_tasks == self@.open_tasks(q, now).len()
                    &&& r@[i].boost == self@.boost_of(q.id@)
                },
    {
        let ghost wanted = opt_text(sigil);
        let ghost p = |q: Quest| self@.on_offer(q, wanted, now);
        let ghost key = |q: Quest| RankKey { first: self@.boost_of(q.id@) as i128, second: q.created_ts as i128, third: 0 };
        let all = self.catalog.quests.values();
        let ghost m = all@.unref();
        let mut offers: Vec<&'a Quest> = Vec::new();
        let mut keys: Vec<RankKey> = Vec::new();
        let mut i: usize = 0;
        proof {
            lemma_filter_none(m, p);
            assert(offers@.unref() =~= m.take(0).filter(p));
            assert(keys@ =~= m.take(0).filter(p).map_values(key));
        }
        while i < all.len()
            invariant
                0 <= i <= all.len(),
                m == all@.unref(),
                wanted == opt_text(sigil),
                p == (|q: Quest| self@.on_offer(q, wanted, now)),
                key == (|q: Quest|
                    RankKey { first: self@.boost_of(q.id@) as i128, second: q.created_ts as i128, third: 0 }),
                offers@.unref() == m.take(i as int).filter(p),
                keys@ == m.take(i as int).filter(p).map_values(key),
            decreases all.len() - i,
        {
            proof {
                lemma_filter_step(m, p, i as int);
            }
            let q = all[i];
            let fits = match sigil {
                Some(s) => contains_string(&q.sigils, s.as_str()),
                None => true,
            };
            if self.is_live(q, now) && fits && self.open_task_count(q, now) > 0 {
                let ghost prev = offers@;
                offers.push(q);
                let boost = self.boost_score(q.id.as_str());
                keys.push(RankKey { first: boost as i128, second: q.created_ts as i128, third: 0 });
                assert(offers@.unref() =~= prev.unref().push(m[i as int]));
                assert(keys@ =~= m.take(i + 1).filter(p).map_values(key));
            }
            i = i + 1;
        }
        assert(m.take(i as int) =~= m);
        assert(keys@.len() == offers@.unref().len());
        let ordered = arrange(&offers, &keys);
        let ghost board = self@.quest_board(wanted, now);
        assert(ordered@.unref() == board);
        assert(ordered@.unref().len() == ordered@.len());
        let mut out: Vec<QuestCard<'a>> = Vec::new();
        let mut i: usize = 0;
        while i < ordered.len()
            invariant
                0 <= i <= ordered.len(),
                out.len() == i,
                ordered@.unref() == board,
                ordered.len() == board.len(),
                forall|j: int|
                    0 <= j < i ==> {
                        &&& *(#[trigger] out@[j]).quest == board[j]
                        &&& out@[j].open_tasks == self@.open_tasks(board[j], now).len()
                        &&& out@[j].boost == self@.boost_of(board[j].id@)
                    },
            decreases ordered.len() - i,
        {
            let q = ordered[i];
            assert(ordered@.unref()[i as int] == *q);
            out.push(
                QuestCard { quest: q, open_tasks: self.open_task_count(q, now), boost: self.boost_score(q.id.as_str()) },
            );
            i = i + 1;
        }
        out
    }
}

} // verus!
