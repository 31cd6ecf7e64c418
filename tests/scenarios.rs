use tl2::memory::Memory;
use tl2::stm::{after_body, Next, STMResult, STM};
use tl2::transaction::{ReadTrans, WriteTrans};

/// Runs `body` on fresh write transactions until it commits or gives up.
fn run_write<R, F>(stm: &mut STM, body: F) -> Option<R>
where
    F: Fn(&mut WriteTrans, &Memory) -> STMResult<R>,
{
    loop {
        let mut tr = stm.begin_write();
        let result = body(&mut tr, stm.mem());
        match after_body(&result, tr.is_aborted()) {
            Next::GiveUp => return None,
            Next::Rerun => continue,
            Next::Commit => {
                assert!(stm.can_commit());
                if stm.commit(&mut tr) {
                    if let STMResult::Done(v) = result {
                        return Some(v);
                    }
                }
            }
        }
    }
}

/// Runs `body` on fresh read transactions until it completes or gives up.
fn run_read<R, F>(stm: &STM, body: F) -> Option<R>
where
    F: Fn(&mut ReadTrans, &Memory) -> STMResult<R>,
{
    loop {
        let mut tr = stm.begin_read();
        let result = body(&mut tr, stm.mem());
        match after_body(&result, tr.is_aborted()) {
            Next::GiveUp => return None,
            Next::Rerun => continue,
            Next::Commit => {
                if let STMResult::Done(v) = result {
                    return Some(v);
                }
            }
        }
    }
}

fn read_stripe(stm: &STM, addr: usize) -> Vec<u8> {
    run_read(stm, |tr, m| match tr.load(m, addr) {
        Some(v) => STMResult::Done(v),
        None => STMResult::Retry,
    })
    .unwrap()
}

fn as_u64(v: &[u8]) -> u64 {
    let mut b = [0u8; 8];
    b.copy_from_slice(v);
    u64::from_le_bytes(b)
}

#[test]
fn single_writer() {
    let mut stm = STM::new(16, 8).unwrap();
    let r = run_write(&mut stm, |tr, _m| {
        tr.store(0, vec![1, 2, 3, 4, 5, 6, 7, 8]);
        STMResult::Done(())
    });
    assert_eq!(r, Some(()));
    assert_eq!(read_stripe(&stm, 0), vec![1, 2, 3, 4, 5, 6, 7, 8]);
    assert_eq!(read_stripe(&stm, 8), vec![0, 0, 0, 0, 0, 0, 0, 0]);
}

#[test]
fn interleaved_counters_reach_two_thousand() {
    let mut stm = STM::new(16, 8).unwrap();
    let mut conflicts = 0;
    for _ in 0..1000 {
        // Two transactions increment the same counter from one snapshot.
        let mut a = stm.begin_write();
        let mut b = stm.begin_write();
        let va = as_u64(&a.load(stm.mem(), 0).unwrap());
        let vb = as_u64(&b.load(stm.mem(), 0).unwrap());
        a.store(0, (va + 1).to_le_bytes().to_vec());
        b.store(0, (vb + 1).to_le_bytes().to_vec());
        assert!(stm.commit(&mut a));
        if !stm.commit(&mut b) {
            conflicts += 1;
            let r = run_write(&mut stm, |tr, m| match tr.load(m, 0) {
                Some(v) => {
                    tr.store(0, (as_u64(&v) + 1).to_le_bytes().to_vec());
                    STMResult::Done(())
                }
                None => STMResult::Retry,
            });
            assert_eq!(r, Some(()));
        }
    }
    assert_eq!(conflicts, 1000);
    assert_eq!(read_stripe(&stm, 0), vec![0xD0, 0x07, 0, 0, 0, 0, 0, 0]);
}

#[test]
fn dining_philosophers_take_turns() {
    let mut stm = STM::new(16, 8).unwrap();
    let mut eats = [0usize; 2];
    for _ in 0..1000 {
        for n in 0..2usize {
            let left = 8 * n;
            let right = 8 * ((n + 1) % 2);
            let picked = run_write(&mut stm, |tr, m| {
                let mut f1 = match tr.load(m, left) {
                    Some(v) => v,
                    None => return STMResult::Retry,
                };
                let mut f2 = match tr.load(m, right) {
                    Some(v) => v,
                    None => return STMResult::Retry,
                };
                if f1[0] == 0 && f2[0] == 0 {
                    f1[0] = 1;
                    f2[0] = 1;
                    tr.store(left, f1);
                    tr.store(right, f2);
                    STMResult::Done(true)
                } else {
                    STMResult::Done(false)
                }
            });
            assert_eq!(picked, Some(true));
            eats[n] += 1;
            let put = run_write(&mut stm, |tr, m| {
                let mut f1 = match tr.load(m, left) {
                    Some(v) => v,
                    None => return STMResult::Retry,
                };
                let mut f2 = match tr.load(m, right) {
                    Some(v) => v,
                    None => return STMResult::Retry,
                };
                f1[0] = 0;
                f2[0] = 0;
                tr.store(left, f1);
                tr.store(right, f2);
                STMResult::Done(())
            });
            assert_eq!(put, Some(()));
        }
    }
    assert_eq!(eats, [1000, 1000]);
    assert_eq!(read_stripe(&stm, 0)[0], 0);
    assert_eq!(read_stripe(&stm, 8)[0], 0);
}

#[test]
fn philosopher_sees_taken_chopstick() {
    let mut stm = STM::new(16, 8).unwrap();
    let mut t = stm.begin_write();
    t.store(0, vec![1, 0, 0, 0, 0, 0, 0, 0]);
    assert!(stm.commit(&mut t));
    let picked = run_write(&mut stm, |tr, m| {
        let f1 = tr.load(m, 8).unwrap();
        let f2 = tr.load(m, 0).unwrap();
        STMResult::Done(f1[0] == 0 && f2[0] == 0)
    });
    assert_eq!(picked, Some(false));
}

#[test]
fn read_set_validation_forces_retry() {
    let mut stm = STM::new(16, 8).unwrap();
    // A reads address 0.
    let mut a = stm.begin_write();
    let seen = a.load(stm.mem(), 0).unwrap();
    // Meanwhile B commits a write to address 0.
    let mut b = stm.begin_write();
    b.store(0, vec![9; 8]);
    assert!(stm.commit(&mut b));
    // A writes address 8 from what it read, and must not commit.
    let mut v = seen.clone();
    v[0] += 1;
    a.store(8, v);
    let clock = stm.mem().global_clock();
    assert!(!stm.commit(&mut a));
    assert_eq!(stm.mem().global_clock(), clock + 1);
    assert_eq!(read_stripe(&stm, 8), vec![0; 8]);
    // The rerun sees B's write and commits after it.
    let r = run_write(&mut stm, |tr, m| match tr.load(m, 0) {
        Some(mut v) => {
            v[0] += 1;
            tr.store(8, v);
            STMResult::Done(())
        }
        None => STMResult::Retry,
    });
    assert_eq!(r, Some(()));
    assert_eq!(read_stripe(&stm, 0), vec![9; 8]);
    assert_eq!(read_stripe(&stm, 8), vec![10, 9, 9, 9, 9, 9, 9, 9]);
}

#[test]
fn abort_leaves_memory_unchanged() {
    let mut stm = STM::new(16, 8).unwrap();
    let r: Option<()> = run_write(&mut stm, |tr, _m| {
        tr.store(0, vec![7; 8]);
        STMResult::Abort
    });
    assert_eq!(r, None);
    assert_eq!(stm.mem().global_clock(), 0);
    assert_eq!(read_stripe(&stm, 0), vec![0; 8]);
}

#[test]
fn invalid_construction_is_rejected() {
    assert!(STM::new(16, 3).is_none());
    assert!(STM::new(16, 0).is_none());
    assert!(STM::new(12, 8).is_none());
    assert!(STM::new(0, 8).is_none());
    assert!(Memory::new(24, 6).is_none());
    assert!(Memory::new(24, 8).is_some());
}

#[test]
fn width_one_and_single_stripe() {
    let mut stm = STM::new(1, 1).unwrap();
    assert_eq!(stm.mem().num_stripes(), 1);
    let mut t = stm.begin_write();
    t.store(0, vec![42]);
    assert!(stm.commit(&mut t));
    assert_eq!(read_stripe(&stm, 0), vec![42]);

    let mut big = STM::new(8, 8).unwrap();
    assert_eq!(big.mem().num_stripes(), 1);
    let mut t = big.begin_write();
    t.store(0, vec![1; 8]);
    assert!(big.commit(&mut t));
    assert_eq!(read_stripe(&big, 0), vec![1; 8]);
}

#[test]
fn last_address_is_usable() {
    let mut stm = STM::new(64, 8).unwrap();
    let mut t = stm.begin_write();
    t.store(56, vec![5; 8]);
    assert!(stm.commit(&mut t));
    assert_eq!(read_stripe(&stm, 56), vec![5; 8]);
    assert_eq!(read_stripe(&stm, 48), vec![0; 8]);
}

#[test]
fn load_after_store_reads_own_write() {
    let stm = STM::new(32, 8).unwrap();
    let mut t = stm.begin_write();
    t.store(16, vec![3; 8]);
    assert_eq!(t.load(stm.mem(), 16), Some(vec![3; 8]));
    t.store(16, vec![4; 8]);
    assert_eq!(t.load(stm.mem(), 16), Some(vec![4; 8]));
    assert_eq!(t.load(stm.mem(), 8), Some(vec![0; 8]));
}

#[test]
fn committed_value_reads_back() {
    let mut stm = STM::new(32, 8).unwrap();
    let mut t = stm.begin_write();
    t.store(24, vec![1, 2, 3, 4, 5, 6, 7, 8]);
    assert!(stm.commit(&mut t));
    let mut r = stm.begin_read();
    assert_eq!(r.load(stm.mem(), 24), Some(vec![1, 2, 3, 4, 5, 6, 7, 8]));
    let mut w = stm.begin_write();
    assert_eq!(w.load(stm.mem(), 24), Some(vec![1, 2, 3, 4, 5, 6, 7, 8]));
}

#[test]
fn empty_write_set_does_not_advance_clock() {
    let mut stm = STM::new(16, 8).unwrap();
    let mut t = stm.begin_write();
    assert_eq!(t.load(stm.mem(), 0), Some(vec![0; 8]));
    assert!(stm.commit(&mut t));
    assert_eq!(stm.mem().global_clock(), 0);
}

#[test]
fn clock_advances_once_per_commit() {
    let mut stm = STM::new(16, 8).unwrap();
    for k in 1..=5u64 {
        let mut t = stm.begin_write();
        t.store(0, vec![k as u8; 8]);
        t.store(8, vec![k as u8; 8]);
        assert!(stm.commit(&mut t));
        assert_eq!(stm.mem().global_clock(), k);
    }
}

#[test]
fn stale_load_aborts_write_transaction() {
    let mut stm = STM::new(16, 8).unwrap();
    let mut a = stm.begin_write();
    let mut b = stm.begin_write();
    b.store(0, vec![1; 8]);
    assert!(stm.commit(&mut b));
    assert_eq!(a.load(stm.mem(), 0), None);
    assert!(a.is_aborted());
    // Once aborted, even an untouched stripe reads nothing.
    assert_eq!(a.load(stm.mem(), 8), None);
    assert!(!stm.commit(&mut a));
    assert_eq!(stm.mem().global_clock(), 1);
}

#[test]
fn stale_load_aborts_read_transaction() {
    let mut stm = STM::new(16, 8).unwrap();
    let mut r = stm.begin_read();
    let mut b = stm.begin_write();
    b.store(8, vec![2; 8]);
    assert!(stm.commit(&mut b));
    assert_eq!(r.load(stm.mem(), 0), Some(vec![0; 8]));
    assert_eq!(r.load(stm.mem(), 8), None);
    assert!(r.is_aborted());
    assert_eq!(r.load(stm.mem(), 0), None);
}

#[test]
fn failed_commit_releases_locks() {
    let mut stm = STM::new(16, 8).unwrap();
    let mut a = stm.begin_write();
    a.load(stm.mem(), 8).unwrap();
    a.store(0, vec![1; 8]);
    let mut b = stm.begin_write();
    b.store(8, vec![2; 8]);
    assert!(stm.commit(&mut b));
    assert!(!stm.commit(&mut a));
    // Stripe 0 was locked and released: a later writer can take it.
    let mut c = stm.begin_write();
    c.store(0, vec![3; 8]);
    assert!(stm.commit(&mut c));
    assert_eq!(read_stripe(&stm, 0), vec![3; 8]);
}

#[test]
fn write_to_unread_stripe_commits_past_other_writer() {
    let mut stm = STM::new(16, 8).unwrap();
    let mut a = stm.begin_write();
    a.store(0, vec![1; 8]);
    let mut b = stm.begin_write();
    b.store(8, vec![2; 8]);
    assert!(stm.commit(&mut b));
    assert!(stm.commit(&mut a));
    assert_eq!(stm.mem().global_clock(), 2);
    assert_eq!(read_stripe(&stm, 0), vec![1; 8]);
    assert_eq!(read_stripe(&stm, 8), vec![2; 8]);
}

#[test]
fn body_results_decide_next_step() {
    assert_eq!(after_body(&STMResult::Done(1), false), Next::Commit);
    assert_eq!(after_body(&STMResult::Done(1), true), Next::Rerun);
    assert_eq!(after_body::<u8>(&STMResult::Retry, false), Next::Rerun);
    assert_eq!(after_body::<u8>(&STMResult::Retry, true), Next::Rerun);
    assert_eq!(after_body::<u8>(&STMResult::Abort, false), Next::GiveUp);
    assert_eq!(after_body::<u8>(&STMResult::Abort, true), Next::GiveUp);
}

#[test]
fn stripe_index_divides_by_width() {
    let m = Memory::new(64, 8).unwrap();
    assert_eq!(m.width(), 8);
    assert_eq!(m.num_stripes(), 8);
    assert_eq!(m.stripe_index(0), 0);
    assert_eq!(m.stripe_index(56), 7);
    assert_eq!(m.stripe_index(24), 3);
}

#[test]
fn versions_follow_commits_and_locks_are_free() {
    let mut stm = STM::new(24, 8).unwrap();
    let mut t = stm.begin_write();
    t.store(0, vec![1; 8]);
    t.store(16, vec![1; 8]);
    assert!(stm.commit(&mut t));
    let mut t = stm.begin_write();
    t.store(16, vec![2; 8]);
    assert!(stm.commit(&mut t));
    let m = stm.mem();
    assert_eq!(m.get_addr_ver(0), 1);
    assert_eq!(m.get_addr_ver(1), 0);
    assert_eq!(m.get_addr_ver(2), 2);
    // A lock word under the largest version means the stripe is unlocked.
    for i in 0..3 {
        assert!(m.test_not_modify(i, 0x7fff_ffff_ffff_ffff));
    }
    assert!(m.test_not_modify(0, 1));
    assert!(!m.test_not_modify(2, 1));
}

#[test]
fn failed_commit_keeps_versions_and_frees_locks() {
    let mut stm = STM::new(16, 8).unwrap();
    let mut a = stm.begin_write();
    assert_eq!(a.load(stm.mem(), 0), Some(vec![0; 8]));
    a.store(0, vec![5; 8]);
    a.store(8, vec![5; 8]);
    let mut b = stm.begin_write();
    b.store(0, vec![6; 8]);
    assert!(stm.commit(&mut b));
    assert!(!stm.commit(&mut a));
    let m = stm.mem();
    assert_eq!(m.global_clock(), 2);
    assert_eq!(m.get_addr_ver(0), 1);
    assert_eq!(m.get_addr_ver(1), 0);
    assert!(m.test_not_modify(0, 0x7fff_ffff_ffff_ffff));
    assert!(m.test_not_modify(1, 0x7fff_ffff_ffff_ffff));
}
