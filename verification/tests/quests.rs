use necropolis::accounts::Registered;
use necropolis::board::{QuestStatus, TaskStatus};
use necropolis::clock::now_secs;
use necropolis::directory::Directory;
use necropolis::economy::{CLAIM_LEASE_SECS, FAUCET};
use necropolis::admission::{refund, Gate, Refusal, Seal};
use necropolis::ledger::{Entry, Row};
use necropolis::ordmap::OrdMap;
use necropolis::records::{
    Attestation, Boost, Handle, HordeClaim, HordeResult, HordeTask, Kind, Quest, QuestClose, Record, Task, TaskAccept,
    TaskClaim, TaskResult,
};
use necropolis::secret::hash;

fn key(n: u32) -> String {
    format!("{n:064x}")
}

fn open_directory() -> Directory {
    let mut d = Directory::in_memory(true);
    d.set_require_account(false);
    d
}

fn content_hash(prev: &str, kind: &str, body: &str) -> String {
    hash(&format!("{prev}|{kind}|{body}"))
}

/// Appends an entry the way the durable ledger does, and folds it in.
fn append(d: &mut Directory, kind: Kind, body: &str, record: Record) -> Row {
    let prev = d.ledger.head_hash().to_string();
    let h = content_hash(&prev, kind.label(), body);
    let entry = Entry {
        seq: d.head_seq() + 1,
        kind: kind.label().to_string(),
        body: body.to_string(),
        prev_hash: prev,
        hash: h.clone(),
    };
    let row = Row { entry: entry.clone(), content_hash: h, record: record.clone() };
    d.commit(entry, record);
    row
}

fn attestation(attester: &str, about: &str, reproduced: bool, ts: i64) -> Attestation {
    Attestation {
        artifact_id: about.to_string(),
        attester: attester.to_string(),
        reproduced,
        created_ts: ts,
        signed: true,
        wire: String::new(),
    }
}

fn quest(author: &str, title: &str, tasks: &[&str], bounty: u64, deadline_ts: i64, ts: i64) -> Quest {
    Quest {
        id: hash(&format!("quest|{author}|{title}|{ts}")),
        author: author.to_string(),
        title: title.to_string(),
        brief: "spec".to_string(),
        tasks: tasks
            .iter()
            .map(|t| Task { id: t.to_string(), brief: "do".to_string(), verify: String::new() })
            .collect(),
        sigils: vec![],
        bounty,
        deadline_ts,
        created_ts: ts,
        signed: true,
    }
}

fn claim(worker: &str, quest: &str, task: &str, ts: i64) -> TaskClaim {
    TaskClaim {
        quest: quest.to_string(),
        task: task.to_string(),
        worker: worker.to_string(),
        created_ts: ts,
        signed: true,
    }
}

fn result(worker: &str, quest: &str, task: &str, ts: i64) -> TaskResult {
    TaskResult {
        id: hash(&format!("result|{worker}|{quest}|{task}|{ts}")),
        quest: quest.to_string(),
        task: task.to_string(),
        worker: worker.to_string(),
        created_ts: ts,
        signed: true,
    }
}

fn accept(author: &str, quest: &str, task: &str, result_id: &str, ts: i64) -> TaskAccept {
    TaskAccept {
        quest: quest.to_string(),
        task: task.to_string(),
        result_id: result_id.to_string(),
        author: author.to_string(),
        created_ts: ts,
        signed: true,
    }
}

fn boost(booster: &str, target: &str, amount: u64, ts: i64) -> Boost {
    Boost {
        booster: booster.to_string(),
        target: target.to_string(),
        amount,
        created_ts: ts,
        sig: hash(&format!("boost|{booster}|{target}|{amount}|{ts}")),
        signed: true,
    }
}

fn close(author: &str, quest: &str, ts: i64) -> QuestClose {
    QuestClose { quest: quest.to_string(), author: author.to_string(), created_ts: ts, signed: true }
}

/// Registers and verifies an email, and binds the keys to its account.
fn sign_up(d: &mut Directory, email: &str, keys: &[&str]) -> Registered {
    let reg = d.accounts.register(email).unwrap();
    assert!(d.accounts.verify(&reg.verify_token));
    for k in keys {
        d.accounts.bind(&reg.account_key, k, true).unwrap();
    }
    reg
}

fn post(d: &mut Directory, q: &Quest) {
    d.admit_quest(q, now_secs()).unwrap();
    append(d, Kind::Quest, &q.id, Record::Quest(q.clone()));
}

fn solve(d: &mut Directory, r: &TaskResult) {
    d.admit_result(r).unwrap();
    append(d, Kind::Result, &r.id, Record::Result(r.clone()));
}

fn take(d: &mut Directory, a: &TaskAccept) {
    d.admit_accept(a).unwrap();
    append(d, Kind::Accept, &a.result_id, Record::Accept(a.clone()));
}

fn vouch(d: &mut Directory, a: &Attestation) {
    d.admit_verify(a).unwrap();
    append(d, Kind::Verify, &a.attester, Record::Attestation(a.clone()));
}

fn horde_task(author: &str, run: &str, title: &str, ts: i64) -> HordeTask {
    HordeTask {
        id: hash(&format!("horde|{author}|{run}|{title}|{ts}")),
        run: run.to_string(),
        title: title.to_string(),
        brief: "do".to_string(),
        sigils: vec![],
        author: author.to_string(),
        created_ts: ts,
        signed: true,
    }
}

fn horde_claim(worker: &str, task: &str, ts: i64) -> HordeClaim {
    HordeClaim {
        id: hash(&format!("hclaim|{worker}|{task}|{ts}")),
        task: task.to_string(),
        worker: worker.to_string(),
        created_ts: ts,
        signed: true,
    }
}

fn horde_result(worker: &str, task: &str, output: &str, ts: i64) -> HordeResult {
    HordeResult {
        id: hash(&format!("hresult|{worker}|{task}|{ts}")),
        task: task.to_string(),
        worker: worker.to_string(),
        output: output.to_string(),
        created_ts: ts,
        signed: true,
    }
}

fn balance(bal: &OrdMap<i128>, unit: &str) -> i128 {
    bal.get(unit).copied().unwrap_or(FAUCET)
}

#[test]
fn quest_queue_claim_lease_and_result() {
    let mut d = open_directory();
    let (author, w1, w2) = (key(1), key(2), key(3));
    let q = Quest {
        tasks: vec![Task { id: "t0".into(), brief: "do it".into(), verify: String::new() }],
        sigils: vec!["compute".into()],
        ..quest(&author, "solve", &["t0"], 0, 0, 1)
    };
    post(&mut d, &q);

    let now = now_secs();
    let c1 = claim(&w1, &q.id, "t0", now);
    d.admit_claim(&c1, now).unwrap();
    append(&mut d, Kind::Claim, "c1", Record::Claim(c1));
    // A second worker can't claim the leased task.
    let c2 = claim(&w2, &q.id, "t0", now);
    let err = d.admit_claim(&c2, now).unwrap_err();
    assert_eq!(err, Refusal::TaskHeld);
    assert_eq!((err.status(), err.message("").as_str()), (409, "task already claimed by another worker (lease active)"));
    // The holder may claim again.
    assert!(d.admit_claim(&claim(&w1, &q.id, "t0", now), now).is_ok());
    assert_eq!(d.quest_state(&q.id, now).unwrap().tasks[0].status, TaskStatus::Claimed);
    assert_eq!(d.quest_state(&q.id, now).unwrap().tasks[0].claimant, Some(&w1));
    // The holder can post a result.
    solve(&mut d, &result(&w1, &q.id, "t0", now));
    // A posted-but-unaccepted result reads "pending", and the task is no longer open.
    let state = d.quest_state(&q.id, now).unwrap();
    assert_eq!(state.tasks[0].status, TaskStatus::Pending);
    assert_eq!(state.tasks[0].status.label(), "pending");
    assert_eq!(state.tasks[0].results, 1);
    assert_eq!(state.tasks[0].claimant, None);
    assert_eq!(d.open_task_count(&q, now), 0);
}

#[test]
fn leases_lapse_to_the_second() {
    let mut d = open_directory();
    let (author, w1, w2) = (key(1), key(2), key(3));
    let q = quest(&author, "solve", &["t0"], 0, 0, 1);
    append(&mut d, Kind::Quest, "q", Record::Quest(q.clone()));
    append(&mut d, Kind::Claim, "a", Record::Claim(claim(&w1, &q.id, "t0", 1000)));
    assert_eq!(CLAIM_LEASE_SECS, 1800);
    assert_eq!(d.active_claim(&q.id, "t0", 2799).unwrap().worker, w1);
    assert!(d.active_claim(&q.id, "t0", 2800).is_none());
    assert_eq!(d.open_task_count(&q, 2800), 1);
    // The latest live claim holds; of two made at once the last.
    append(&mut d, Kind::Claim, "b", Record::Claim(claim(&w2, &q.id, "t0", 1000)));
    assert_eq!(d.active_claim(&q.id, "t0", 1500).unwrap().worker, w2);
    append(&mut d, Kind::Claim, "c", Record::Claim(claim(&w1, &q.id, "t0", 900)));
    assert_eq!(d.active_claim(&q.id, "t0", 1500).unwrap().worker, w2);
    assert!(d.active_claim(&q.id, "other", 1500).is_none());
}

#[test]
fn quest_bounty_escrows_and_pays_on_accept() {
    let mut d = open_directory();
    let (author, worker) = (key(1), key(2));
    let aa = d.acct(&author);
    let wa = d.acct(&worker);
    // A quest staking a 40-credit bounty over 2 tasks (20 each).
    let q = quest(&author, "solve", &["t0", "t1"], 40, 0, 1);
    post(&mut d, &q);
    // Escrow locked the full 40 out of the author's faucet.
    let bal = d.credits(now_secs());
    assert_eq!(*bal.get(&aa).unwrap(), FAUCET - 40);
    assert_eq!(balance(&bal, &wa), FAUCET);

    // Worker solves t0; author accepts: 20 transfers.
    let r = result(&worker, &q.id, "t0", 2);
    solve(&mut d, &r);
    take(&mut d, &accept(&author, &q.id, "t0", &r.id, 3));
    let bal = d.credits(now_secs());
    assert_eq!(*bal.get(&wa).unwrap(), FAUCET + 20);
    assert_eq!(*bal.get(&aa).unwrap(), FAUCET - 40);
    assert!(!d.quest_complete(&q.id));
    assert_eq!(d.quest_state(&q.id, 0).unwrap().per_task, 20);
    assert_eq!(d.quest_state(&q.id, 0).unwrap().tasks[0].solver, Some(worker.clone()));
    assert_eq!(d.balance_of(&wa, now_secs()), FAUCET + 20);
    // By key: author and worker both trade.
    let by_key = d.credits_by_pubkey(now_secs());
    assert_eq!(by_key.len(), 2);
    assert_eq!(by_key.get(&worker), Some(&(FAUCET + 20)));
}

#[test]
fn quest_bounty_beyond_balance_is_rejected() {
    let d = open_directory();
    let q = quest(&key(1), "greedy", &["t0"], 10_000, 0, 1);
    let err = d.admit_quest(&q, now_secs()).unwrap_err();
    assert_eq!(err, Refusal::CannotStake { have: 100, need: 10_000 });
    assert_eq!(err.status(), 402);
    assert_eq!(err.message(""), "insufficient credits to stake this bounty (have 100, need 10000)");
    // Exactly what is there will do, and dust is not asked for.
    assert!(d.admit_quest(&quest(&key(1), "all", &["a"], 100, 0, 1), 0).is_ok());
    assert!(d.admit_quest(&quest(&key(1), "dust", &["a", "b", "c"], 101, 0, 1), 0).is_ok());
    assert!(d.admit_quest(&quest(&key(1), "none", &[], 10_000, 0, 1), 0).is_ok());
    assert_eq!(
        d.admit_quest(&Quest { signed: false, ..q }, 0).unwrap_err(),
        Refusal::Unsigned(Seal::Quest)
    );
}

#[test]
fn quest_trustless_verify_settles_and_pays_cut() {
    let mut d = open_directory();
    let (author, worker, v1, v2) = (key(1), key(2), key(3), key(4));
    // 1 task, bounty 100: share 100; 20% cut: 20 pool, 10 each, solver 80.
    let q = quest(&author, "q", &["t0"], 100, 0, 1);
    post(&mut d, &q);
    let r = result(&worker, &q.id, "t0", 2);
    solve(&mut d, &r);

    // The solver can't vouch for their own result.
    let selfv = attestation(&worker, &r.id, true, 3);
    let err = d.admit_verify(&selfv).unwrap_err();
    assert_eq!(err, Refusal::OwnResult);
    assert_eq!((err.status(), err.message("").as_str()), (403, "you can't verify your own result"));
    // Nor can the poster, nor can anybody for a result that is not there.
    assert_eq!(d.admit_verify(&attestation(&author, &r.id, true, 3)).unwrap_err(), Refusal::OwnQuestVerdict);
    assert_eq!(d.admit_verify(&attestation(&v1, "nope", true, 3)).unwrap_err(), Refusal::NoSuchResult);
    // Two independent verifiers reach quorum: the task settles trustlessly.
    vouch(&mut d, &attestation(&v1, &r.id, true, 3));
    assert!(d.task_settlement(&q.id, "t0").is_none());
    vouch(&mut d, &attestation(&v1, &r.id, true, 4));
    assert!(d.task_settlement(&q.id, "t0").is_none());
    vouch(&mut d, &attestation(&v2, &r.id, true, 3));
    assert_eq!(d.task_settlement(&q.id, "t0"), Some((worker.clone(), vec![v1.clone(), v2.clone()])));
    let bal = d.credits(now_secs());
    assert_eq!(*bal.get(&worker).unwrap(), FAUCET + 80);
    assert_eq!(*bal.get(&v1).unwrap(), FAUCET + 10);
    assert_eq!(*bal.get(&v2).unwrap(), FAUCET + 10);
    assert_eq!(*bal.get(&author).unwrap(), FAUCET - 100);
    // The deeds: each verifier vouches for the solver.
    let deeds = d.rep_events();
    assert_eq!(deeds.len(), 2);
    assert!(deeds.iter().all(|e| e.subject == worker && e.ts == 1));
}

#[test]
fn verifier_fees_leave_the_dust_to_the_solver() {
    let mut d = open_directory();
    let (author, worker) = (key(1), key(2));
    // Share 94: pool 18, three verifiers 6 each, solver 76.
    let q = quest(&author, "q", &["t0"], 94, 0, 1);
    post(&mut d, &q);
    let r = result(&worker, &q.id, "t0", 2);
    solve(&mut d, &r);
    for i in 0..3 {
        vouch(&mut d, &attestation(&key(10 + i), &r.id, true, 3));
    }
    // A verdict against it counts for nothing.
    vouch(&mut d, &attestation(&key(20), &r.id, false, 3));
    let bal = d.credits(0);
    assert_eq!(*bal.get(&worker).unwrap(), FAUCET + 76);
    assert_eq!(*bal.get(&key(10)).unwrap(), FAUCET + 6);
    assert_eq!(balance(&bal, &key(20)), FAUCET);
    let sum: i128 = (0..bal.len()).map(|i| *bal.value_at(i) - FAUCET).sum();
    assert_eq!(sum, 0, "settled: nothing minted, nothing lost");
    // Four verifiers: pool 18, 4 each, the solver keeps the dust.
    vouch(&mut d, &attestation(&key(13), &r.id, true, 3));
    let bal = d.credits(0);
    assert_eq!(*bal.get(&key(13)).unwrap(), FAUCET + 4);
    assert_eq!(*bal.get(&worker).unwrap(), FAUCET + 78);
}

#[test]
fn verifiers_of_one_account_are_one() {
    let mut d = open_directory();
    let (author, worker, a, b, c) = (key(1), key(2), key(3), key(4), key(5));
    sign_up(&mut d, "pair@x.com", &[&a, &b]);
    let q = quest(&author, "q", &["t0"], 10, 0, 1);
    post(&mut d, &q);
    let r = result(&worker, &q.id, "t0", 2);
    solve(&mut d, &r);
    vouch(&mut d, &attestation(&a, &r.id, true, 3));
    vouch(&mut d, &attestation(&b, &r.id, true, 3));
    assert!(d.task_settlement(&q.id, "t0").is_none());
    vouch(&mut d, &attestation(&c, &r.id, true, 3));
    assert_eq!(d.task_settlement(&q.id, "t0").unwrap().1, vec!["acct:1".to_string(), c]);
}

#[test]
fn boost_burns_credits_and_ranks() {
    let mut d = open_directory();
    let booster = key(1);
    let ba = d.acct(&booster);
    // A quest to boost (no bounty, so escrow doesn't muddy the balance).
    let q = quest(&booster, "feature me", &["t0"], 0, 0, 1);
    post(&mut d, &q);

    // Boost it 30 credits: burned from the booster's balance, added to its score.
    let b = boost(&booster, &q.id, 30, 2);
    d.admit_boost(&b, now_secs()).unwrap();
    append(&mut d, Kind::Boost, "b", Record::Boost(b.clone()));
    assert_eq!(*d.credits(now_secs()).get(&ba).unwrap(), FAUCET - 30, "boost burns credits");
    assert_eq!(d.boost_score(&q.id), 30);

    // A boost beyond the remaining balance is refused, balance unchanged.
    let broke = boost(&booster, &q.id, 10_000, 3);
    let err = d.admit_boost(&broke, now_secs()).unwrap_err();
    assert_eq!(err, Refusal::CannotBoost { have: 70, cost: 10_000 });
    assert_eq!((err.status(), err.message("").as_str()), (402, "insufficient credits to boost (have 70, need 10000)"));
    assert_eq!(*d.credits(now_secs()).get(&ba).unwrap(), FAUCET - 30);
    assert_eq!(d.boost_score(&q.id), 30);
    // A replayed boost counts once.
    append(&mut d, Kind::Boost, "b", Record::Boost(b));
    assert_eq!(d.boost_score(&q.id), 30);
    let empty = d.admit_boost(&boost(&booster, &q.id, 0, 4), 0).unwrap_err();
    assert_eq!((empty.status(), empty.message("").as_str()), (400, "a boost must spend at least 1 credit"));
    assert_eq!(d.admit_boost(&Boost { signed: false, ..broke }, 0).unwrap_err(), Refusal::Unsigned(Seal::Boost));
    // The board puts it above a newer quest.
    let newer = quest(&key(2), "newer", &["t0"], 0, 0, 50);
    post(&mut d, &newer);
    let board = d.quests(None, 100);
    assert_eq!(board.iter().map(|c| c.quest.title.as_str()).collect::<Vec<_>>(), vec!["feature me", "newer"]);
    assert_eq!(board[0].boost, 30);
    assert_eq!(board[0].open_tasks, 1);
}

#[test]
fn quest_close_refunds_escrow_and_leaves_board() {
    let mut d = open_directory();
    let (author, worker) = (key(1), key(2));
    let aa = d.acct(&author);
    // 2 tasks, 40 bounty (20 each). The author accepts t0, then closes.
    let q = quest(&author, "closeme", &["t0", "t1"], 40, 0, 1);
    post(&mut d, &q);
    let r = result(&worker, &q.id, "t0", 2);
    solve(&mut d, &r);
    take(&mut d, &accept(&author, &q.id, "t0", &r.id, 3));

    // Before close: author down the full 40 (20 paid to solver, 20 still escrowed on t1).
    assert_eq!(*d.credits(now_secs()).get(&aa).unwrap(), FAUCET - 40);
    assert_eq!(d.quest_state(&q.id, now_secs()).unwrap().status, QuestStatus::Open);

    // A non-author can't close it.
    let err = d.admit_close(&close(&key(9), &q.id, 4), now_secs()).err().unwrap();
    assert_eq!(err, Refusal::NotTheAuthorsAccount);
    assert_eq!((err.status(), err.message("").as_str()), (403, "only the quest's author account may close it"));

    // Author closes: the live t1 escrow (20) refunds; only the 20 paid stays spent.
    let c = close(&author, &q.id, 5);
    let closing = d.admit_close(&c, now_secs()).unwrap();
    assert!(!closing.already);
    assert!(!closing.completed);
    assert_eq!(closing.unsettled, 1);
    append(&mut d, Kind::Close, "c", Record::Close(c.clone()));
    assert_eq!(refund(closing.before, d.balance_of(&aa, now_secs())), 20);
    assert_eq!(*d.credits(now_secs()).get(&aa).unwrap(), FAUCET - 20, "unsettled escrow refunded on close");
    // t1 never settled: this close is a withdrawal, not a completion.
    let state = d.quest_state(&q.id, now_secs()).unwrap();
    assert_eq!(state.status.label(), "withdrawn");
    assert_eq!(state.closed_ts, Some(5));
    assert!(d.catalog.closed.contains_key(&q.id));
    // And it's gone from the board.
    assert!(d.quests(None, now_secs()).iter().all(|x| x.quest.id != q.id), "closed quest must leave the board");
    // Closing again is idle; the earliest close stands.
    assert!(d.admit_close(&c, now_secs()).unwrap().already);
    append(&mut d, Kind::Close, "d", Record::Close(close(&author, &q.id, 9)));
    assert_eq!(d.catalog.closed.get(&q.id), Some(&5));
    append(&mut d, Kind::Close, "e", Record::Close(close(&author, &q.id, 2)));
    assert_eq!(d.catalog.closed.get(&q.id), Some(&2));
    assert_eq!(d.admit_close(&close(&author, "nope", 5), 0).err().unwrap(), Refusal::NoSuchQuest);
    assert_eq!(
        d.admit_close(&QuestClose { signed: false, ..close(&author, &q.id, 5) }, 0).err().unwrap(),
        Refusal::Unsigned(Seal::Close)
    );
}

#[test]
fn expired_quests_refund_and_leave_the_board() {
    let mut d = open_directory();
    let author = key(1);
    let q = quest(&author, "soon over", &["t0"], 30, 500, 1);
    append(&mut d, Kind::Quest, "q", Record::Quest(q.clone()));
    assert_eq!(d.balance_of(&author, 499), FAUCET - 30);
    assert_eq!(d.quests(None, 499).len(), 1);
    assert_eq!(d.balance_of(&author, 500), FAUCET);
    assert_eq!(d.quests(None, 500).len(), 0);
}

#[test]
fn close_outcome_is_completed_only_when_every_task_settled() {
    let mut d = open_directory();
    let (author, worker) = (key(1), key(2));
    // Single-task quest, actually solved and accepted: closing = completed.
    let q = quest(&author, "prove it", &["t0"], 0, 0, 1);
    post(&mut d, &q);
    let r = result(&worker, &q.id, "t0", 2);
    solve(&mut d, &r);
    take(&mut d, &accept(&author, &q.id, "t0", &r.id, 3));
    assert!(d.quest_complete(&q.id));
    assert_eq!(d.quest_state(&q.id, now_secs()).unwrap().status.label(), "complete");
    let c = close(&author, &q.id, 4);
    assert!(d.admit_close(&c, now_secs()).unwrap().completed);
    append(&mut d, Kind::Close, "c", Record::Close(c));
    assert_eq!(d.quest_state(&q.id, now_secs()).unwrap().status.label(), "completed");

    // Second quest, never solved: closing = withdrawn, not completed.
    let q2 = quest(&author, "never done", &["t0"], 0, 0, 5);
    post(&mut d, &q2);
    let c2 = close(&author, &q2.id, 6);
    d.admit_close(&c2, now_secs()).unwrap();
    append(&mut d, Kind::Close, "c2", Record::Close(c2));
    assert_eq!(d.quest_state(&q2.id, now_secs()).unwrap().status, QuestStatus::Withdrawn);
    assert!(d.quest_state("nope", 0).is_none());
    assert!(!d.quest_complete("nope"));
}

#[test]
fn horde_board_is_account_private_and_gathers_a_run() {
    let mut d = open_directory();
    let (orch, worker, stranger) = (key(1), key(2), key(3));
    // orch + worker are two agents of one account; stranger is separate.
    sign_up(&mut d, "horde@x.com", &[&orch, &worker]);
    // Orchestrator posts a subtask under run-1.
    let t = horde_task(&orch, "run-1", "sub A", 1);
    d.admit_horde_task(&t).unwrap();
    append(&mut d, Kind::HordeTask, "t", Record::HordeTask(t.clone()));

    // Same-account worker sees it; a stranger's board is empty.
    assert_eq!(d.horde_tasks(&worker, None, 5).len(), 1, "same-account worker sees the task");
    assert_eq!(d.horde_tasks(&stranger, None, 5).len(), 0, "a stranger can't see the account's board");
    assert_eq!(d.horde_tasks(&worker, Some(&"run-2".to_string()), 5).len(), 0);

    // A stranger can't claim it.
    let sc = horde_claim(&stranger, &t.id, 2);
    let err = d.admit_horde_claim(&sc, 5).unwrap_err();
    assert_eq!((err.status(), err.message("").as_str()), (403, "only agents of the task's account may claim it"));
    append(&mut d, Kind::HordeClaim, "sc", Record::HordeClaim(sc));
    assert_eq!(d.catalog.horde_claims.count(&t.id), 0, "not even on replay");

    // Worker claims + submits.
    let c = horde_claim(&worker, &t.id, 2);
    d.admit_horde_claim(&c, 5).unwrap();
    append(&mut d, Kind::HordeClaim, "c", Record::HordeClaim(c));
    assert_eq!(d.horde_tasks(&worker, None, 5).len(), 0, "claimed work is not open");
    assert_eq!(d.horde_status(&t.id, 5), TaskStatus::Claimed);
    assert_eq!(d.horde_run(&orch, &"run-1".to_string(), 5).tasks[0].claimant, Some(&worker));
    let held = d.admit_horde_claim(&horde_claim(&orch, &t.id, 3), 5).unwrap_err();
    assert_eq!((held.status(), held.message("").as_str()), (409, format!("{} task", "another of your agents is already on this").as_str()));
    let r = horde_result(&worker, &t.id, "answer A", 3);
    d.admit_horde_result(&r).unwrap();
    append(&mut d, Kind::HordeResult, "r", Record::HordeResult(r));
    assert_eq!(d.admit_horde_result(&horde_result(&stranger, &t.id, "x", 4)).unwrap_err(), Refusal::StrangerResult);
    assert_eq!(d.admit_horde_result(&horde_result(&worker, "nope", "x", 4)).unwrap_err(), Refusal::NoSuchHordeTask);

    // The run is complete and the orchestrator gathers the output.
    let run = d.horde_run(&orch, &"run-1".to_string(), 5);
    assert!(run.complete);
    assert_eq!((run.total, run.solved), (1, 1));
    assert_eq!(run.tasks[0].status.label(), "solved");
    assert_eq!(run.tasks[0].output, Some(&"answer A".to_string()));
    assert_eq!(run.tasks[0].worker, Some(&worker));
    // A stranger gathers nothing.
    let theirs = d.horde_run(&stranger, &"run-1".to_string(), 5);
    assert!(!theirs.complete);
    assert_eq!(theirs.total, 0);
}

#[test]
fn horde_boards_are_in_order() {
    let mut d = open_directory();
    let k = key(1);
    for (i, ts) in [5, 9, 7].iter().enumerate() {
        let t = horde_task(&k, "r", &format!("t{i}"), *ts);
        append(&mut d, Kind::HordeTask, &format!("{i}"), Record::HordeTask(t));
    }
    let open: Vec<i64> = d.horde_tasks(&k, None, 0).iter().map(|v| v.task.created_ts).collect();
    assert_eq!(open, vec![9, 7, 5]);
    let run: Vec<i64> = d.horde_run(&k, &"r".to_string(), 0).tasks.iter().map(|v| v.task.created_ts).collect();
    assert_eq!(run, vec![5, 7, 9]);
}

#[test]
fn quest_no_self_dealing() {
    let mut d = open_directory();
    let (author, worker) = (key(1), key(2));
    let q = quest(&author, "own quest", &["t0"], 20, 0, 1);
    post(&mut d, &q);
    let now = now_secs();
    // The author's own account can neither claim nor solve its own quest.
    let err = d.admit_claim(&claim(&author, &q.id, "t0", now), now).unwrap_err();
    assert_eq!(err, Refusal::OwnQuestClaim);
    assert_eq!(err.status(), 403);
    let err = d.admit_result(&result(&author, &q.id, "t0", now)).unwrap_err();
    assert_eq!(err, Refusal::OwnQuestResult);
    assert_eq!(
        err.message(""),
        "you can't solve a quest your own account posted — self-dealing is not allowed"
    );
    // A different account is fine.
    let c = claim(&worker, &q.id, "t0", now);
    assert!(d.admit_claim(&c, now).is_ok());
    append(&mut d, Kind::Claim, "c", Record::Claim(c));
    // The leaderboard serves: the author is on it, less what lies in escrow.
    let board = d.leaderboard(&OrdMap::new(), now);
    assert_eq!(board.len(), 1);
    assert_eq!(board[0].agent, author);
    assert_eq!(board[0].credits, FAUCET - 20);
    // Even out of band, a self-solved result never settles.
    let own = result(&author, &q.id, "t0", now);
    append(&mut d, Kind::Result, "own", Record::Result(own.clone()));
    append(&mut d, Kind::Accept, "acc", Record::Accept(accept(&author, &q.id, "t0", &own.id, now)));
    for i in 0..2 {
        append(&mut d, Kind::Verify, &format!("v{i}"), Record::Attestation(attestation(&key(30 + i), &own.id, true, now)));
    }
    assert!(d.task_settlement(&q.id, "t0").is_none());
    // A forged acceptance is ignored.
    let r = result(&worker, &q.id, "t0", now);
    append(&mut d, Kind::Result, "r", Record::Result(r.clone()));
    append(&mut d, Kind::Accept, "f", Record::Accept(accept(&worker, &q.id, "t0", &r.id, now)));
    assert!(d.task_settlement(&q.id, "t0").is_none());
}

#[test]
fn accept_is_checked_in_order() {
    let mut d = open_directory();
    let (author, worker) = (key(1), key(2));
    let q = quest(&author, "q", &["t0"], 0, 0, 1);
    post(&mut d, &q);
    let r = result(&worker, &q.id, "t0", 2);
    solve(&mut d, &r);
    let good = accept(&author, &q.id, "t0", &r.id, 3);
    assert_eq!(
        d.admit_accept(&TaskAccept { signed: false, ..good.clone() }).unwrap_err(),
        Refusal::Unsigned(Seal::Accept)
    );
    assert_eq!(d.admit_accept(&accept(&author, "nope", "t0", &r.id, 3)).unwrap_err(), Refusal::NoSuchQuest);
    let other = d.admit_accept(&accept(&worker, &q.id, "t0", &r.id, 3)).unwrap_err();
    assert_eq!((other.status(), other.message("").as_str()), (403, "only the quest's author may accept a result"));
    let task = d.admit_accept(&accept(&author, &q.id, "t9", &r.id, 3)).unwrap_err();
    assert_eq!((task.status(), task.message("").as_str()), (404, "no such task in that quest"));
    let res = d.admit_accept(&accept(&author, &q.id, "t0", "nope", 3)).unwrap_err();
    assert_eq!((res.status(), res.message("").as_str()), (404, "no such result for that task"));
    assert!(d.admit_accept(&good).is_ok());
}

#[test]
fn workers_are_checked_in_order() {
    let mut d = Directory::in_memory(true);
    let (author, worker) = (key(1), key(2));
    let q = quest(&author, "q", &["t0"], 0, 0, 1);
    append(&mut d, Kind::Quest, "q", Record::Quest(q.clone()));
    let c = claim(&worker, &q.id, "t0", 5);
    assert_eq!(d.admit_claim(&c, 5).unwrap_err(), Refusal::NoAccount(Gate::Claim));
    assert_eq!(d.admit_result(&result(&worker, &q.id, "t0", 5)).unwrap_err(), Refusal::NoAccount(Gate::Result));
    assert_eq!(d.admit_quest(&q, 5).unwrap_err(), Refusal::NoAccount(Gate::Quest));
    assert_eq!(d.admit_boost(&boost(&worker, &q.id, 1, 5), 5).unwrap_err(), Refusal::NoAccount(Gate::Boost));
    assert_eq!(d.admit_verify(&attestation(&worker, "r", true, 5)).unwrap_err(), Refusal::NoAccount(Gate::Verify));
    assert_eq!(d.admit_horde_task(&horde_task(&worker, "r", "t", 5)).unwrap_err(), Refusal::NoAccount(Gate::HordeTask));
    let reg: Registered = sign_up(&mut d, "w@x.com", &[&worker]);
    assert!(!reg.already);
    assert!(d.admit_claim(&c, 5).is_ok());
    assert_eq!(d.admit_claim(&claim(&worker, "nope", "t0", 5), 5).unwrap_err(), Refusal::NoSuchQuest);
    assert_eq!(d.admit_claim(&claim(&worker, &q.id, "t9", 5), 5).unwrap_err(), Refusal::NoSuchTask);
    assert_eq!(d.admit_result(&result(&worker, "nope", "t0", 5)).unwrap_err(), Refusal::NoSuchQuest);
    assert_eq!(
        d.admit_claim(&TaskClaim { signed: false, ..c }, 5).unwrap_err(),
        Refusal::Unsigned(Seal::Claim)
    );
    assert_eq!(d.admit_horde_claim(&horde_claim(&worker, "nope", 5), 5).unwrap_err(), Refusal::NoSuchHordeTask);
    assert_eq!(
        d.admit_horde_claim(&HordeClaim { signed: false, ..horde_claim(&worker, "nope", 5) }, 5).unwrap_err(),
        Refusal::Unsigned(Seal::HordeClaim)
    );
    assert_eq!(
        d.admit_horde_result(&HordeResult { signed: false, ..horde_result(&worker, "nope", "", 5) }).unwrap_err(),
        Refusal::Unsigned(Seal::HordeResult)
    );
}

#[test]
fn board_matches_sigils() {
    let mut d = open_directory();
    let mut q = quest(&key(1), "tagged", &["t0"], 0, 0, 1);
    q.sigils = vec!["compute".into()];
    append(&mut d, Kind::Quest, "a", Record::Quest(q));
    append(&mut d, Kind::Quest, "b", Record::Quest(quest(&key(1), "plain", &["t0"], 0, 0, 2)));
    append(&mut d, Kind::Quest, "c", Record::Quest(quest(&key(1), "empty", &[], 0, 0, 3)));
    assert_eq!(d.quests(None, 5).iter().map(|c| c.quest.title.clone()).collect::<Vec<_>>(), vec!["plain", "tagged"]);
    assert_eq!(d.quests(Some(&"compute".to_string()), 5).len(), 1);
    assert_eq!(d.quests(Some(&"other".to_string()), 5).len(), 0);
}

#[test]
fn leaderboard_has_one_row_per_account() {
    let mut d = open_directory();
    let (a, b, c, w) = (key(1), key(2), key(3), key(4));
    sign_up(&mut d, "pair@x.com", &[&a, &b]);
    // b has a claimed name, so it stands for the account.
    let h = Handle { name: "Bee".into(), key: "bee".into(), owner: b.clone(), created_ts: 1, signed: true };
    append(&mut d, Kind::Handle, "h", Record::Handle(h));
    let q = quest(&a, "q", &["t0"], 40, 0, 1);
    append(&mut d, Kind::Quest, "q", Record::Quest(q.clone()));
    let r = result(&w, &q.id, "t0", 2);
    append(&mut d, Kind::Result, "r", Record::Result(r.clone()));
    append(&mut d, Kind::Accept, "x", Record::Accept(accept(&a, &q.id, "t0", &r.id, 3)));
    let mut reps: OrdMap<i64> = OrdMap::new();
    reps.insert(b.clone(), 5);
    reps.insert(c.clone(), 9);
    let rows = d.leaderboard(&reps, 10);
    let got: Vec<(String, i64, Option<String>, i128)> =
        rows.into_iter().map(|l| (l.agent, l.score, l.scored_under, l.credits)).collect();
    // c leads by reputation; then the pair, shown by b, with what the account has; then w.
    assert_eq!(
        got,
        vec![(c.clone(), 9, Some(c), 100), (b.clone(), 5, Some(b), 60), (w, 0, None, 140)]
    );
}

#[test]
fn leaderboard_scores_the_account() {
    let mut d = open_directory();
    let (a, b, c) = (key(1), key(2), key(3));
    sign_up(&mut d, "pair@x.com", &[&a, &b]);
    // a has the name and posted a quest; b has the score.
    let h = Handle { name: "Ay".into(), key: "ay".into(), owner: a.clone(), created_ts: 1, signed: true };
    append(&mut d, Kind::Handle, "h", Record::Handle(h));
    append(&mut d, Kind::Quest, "q", Record::Quest(quest(&a, "q", &["t0"], 30, 0, 1)));
    let mut reps: OrdMap<i64> = OrdMap::new();
    reps.insert(b.clone(), 7);
    reps.insert(c.clone(), 3);
    let rows = d.leaderboard(&reps, 10);
    assert_eq!(rows.len(), 2);
    assert_eq!((rows[0].agent.clone(), rows[0].score, rows[0].credits), (a, 7, 70));
    assert_eq!(rows[0].scored_under, Some(b));
    assert_eq!((rows[1].agent.clone(), rows[1].score, rows[1].credits), (c, 3, 100));
}

#[test]
fn leaderboard_shows_a_hundred() {
    let d = open_directory();
    let mut reps: OrdMap<i64> = OrdMap::new();
    for i in 0..130 {
        reps.insert(key(i), i as i64);
    }
    let rows = d.leaderboard(&reps, 0);
    assert_eq!(rows.len(), 100);
    assert_eq!(rows[0].agent, key(129));
    assert_eq!(rows[99].agent, key(30));
}

#[test]
fn huge_amounts_are_not_affordable() {
    let mut d = open_directory();
    let (a, b) = (key(1), key(2));
    let err = d.admit_boost(&boost(&a, "scroll-xyz", u64::MAX, 2), 2).unwrap_err();
    assert_eq!(err, Refusal::CannotBoost { have: 100, cost: u64::MAX });
    assert_eq!(err.status(), 402);
    assert_eq!(err.message(""), "insufficient credits to boost (have 100, need 18446744073709551615)");
    assert_eq!(d.boost_score("scroll-xyz"), 0);
    let err = d.admit_quest(&quest(&a, "huge", &["t0"], 1 << 63, 0, 1), 2).unwrap_err();
    assert_eq!(err, Refusal::CannotStake { have: 100, need: 1 << 63 });
    assert_eq!(
        err.message(""),
        "insufficient credits to stake this bounty (have 100, need 9223372036854775808)"
    );
    // What came in all the same is burned, never minted.
    append(&mut d, Kind::Boost, "b", Record::Boost(boost(&a, "t", u64::MAX, 1)));
    append(&mut d, Kind::Boost, "c", Record::Boost(boost(&a, "t", 3, 2)));
    assert_eq!(d.boost_score("t"), u64::MAX);
    assert_eq!(d.balance_of(&a, 0), 100 - (u64::MAX as i128) - 3);
    assert_eq!(d.balance_of(&b, 0), 100);
    assert_eq!(refund(5, 3), 0);
    assert_eq!(refund(3, 5), 2);
    assert_eq!(refund(i128::MIN, i128::MAX), u128::MAX);
}

#[test]
fn fees_of_huge_shares_are_exact() {
    let mut d = open_directory();
    let q = quest(&key(1), "q", &["t0"], u64::MAX, 0, 1);
    append(&mut d, Kind::Quest, "q", Record::Quest(q.clone()));
    let r = result(&key(2), &q.id, "t0", 2);
    append(&mut d, Kind::Result, "r", Record::Result(r.clone()));
    for n in [3, 4] {
        append(&mut d, Kind::Verify, "v", Record::Attestation(attestation(&key(n), &r.id, true, 3)));
    }
    let share = u64::MAX as i128;
    let fee = share * 20 / 100 / 2;
    assert_eq!(d.balance_of(&key(1), 5), 100 - share);
    assert_eq!(d.balance_of(&key(2), 5), 100 + share - 2 * fee);
    assert_eq!(d.balance_of(&key(3), 5), 100 + fee);
    assert_eq!(d.balance_of(&key(4), 5), 100 + fee);
    // All that anybody has adds up to what everybody started with.
    let bal = d.credits(5);
    let total: i128 = (0..bal.len()).map(|i| *bal.value_at(i) - FAUCET).sum();
    assert_eq!(total, 0);
}

#[test]
fn a_claim_from_long_ago_has_lapsed() {
    let mut d = open_directory();
    let q = quest(&key(1), "q", &["t0"], 0, 0, 1);
    append(&mut d, Kind::Quest, "q", Record::Quest(q.clone()));
    append(&mut d, Kind::Claim, "c", Record::Claim(claim(&key(2), &q.id, "t0", i64::MIN)));
    assert!(d.active_claim(&q.id, "t0", i64::MAX).is_none());
    assert!(d.active_claim(&q.id, "t0", 1).is_none());
    assert!(d.active_claim(&q.id, "t0", i64::MIN + 5).is_some());
}

#[test]
fn repeated_records_count_once() {
    let mut d = open_directory();
    let q = quest(&key(1), "q", &["t0"], 40, 0, 1);
    let r = result(&key(2), &q.id, "t0", 2);
    let t = horde_task(&key(1), "run", "t", 1);
    for _ in 0..2 {
        append(&mut d, Kind::Quest, "q", Record::Quest(q.clone()));
        append(&mut d, Kind::Result, "r", Record::Result(r.clone()));
        append(&mut d, Kind::Accept, "a", Record::Accept(accept(&key(1), &q.id, "t0", &r.id, 3)));
        append(&mut d, Kind::Close, "c", Record::Close(close(&key(1), &q.id, 4)));
        append(&mut d, Kind::HordeTask, "t", Record::HordeTask(t.clone()));
        append(&mut d, Kind::HordeClaim, "x", Record::HordeClaim(horde_claim(&key(1), &t.id, 2)));
        append(&mut d, Kind::HordeResult, "y", Record::HordeResult(horde_result(&key(1), &t.id, "out", 3)));
    }
    assert_eq!(d.catalog.quests.len(), 1);
    assert_eq!(d.catalog.results.count(&q.id, "t0"), 1);
    assert_eq!(d.balance_of(&key(1), 5), 60);
    assert_eq!(d.balance_of(&key(2), 5), 140);
    assert_eq!(*d.catalog.closed.get(&q.id).unwrap(), 4);
    assert_eq!(d.catalog.horde_claims.count(&t.id), 1);
    assert_eq!(d.catalog.horde_results.count(&t.id), 1);
}

#[test]
fn rows_of_quests_replay() {
    let mut origin = open_directory();
    let q = quest(&key(1), "q", &["t0"], 10, 0, 1);
    let row: Row = append(&mut origin, Kind::Quest, "q", Record::Quest(q.clone()));
    let mut replica = open_directory();
    assert_eq!(replica.apply_remote(vec![row]).unwrap(), 1);
    assert_eq!(replica.catalog.quests.get(&q.id).unwrap().bounty, 10);
    // A second quest of the same id changes nothing.
    append(&mut replica, Kind::Quest, "z", Record::Quest(Quest { bounty: 99, ..q.clone() }));
    assert_eq!(replica.catalog.quests.get(&q.id).unwrap().bounty, 10);
}
