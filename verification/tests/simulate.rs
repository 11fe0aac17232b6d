use dicemind::interpreter::naive::NaiveRoller;
use dicemind::interpreter::RollerError;
use dicemind::parser::parse;
use dicemind::simulate::{
    batch_count, batch_trials, simulate, DisplayOptions, FrequencyTable, SimulationOptions,
    TRIALS_PER_BATCH,
};

#[test]
fn tables_count_outcomes() {
    let mut table = FrequencyTable::new();
    for outcome in [3, 1, 3, 2, 3, 1, -4] {
        table.record(outcome);
    }
    assert_eq!(table.entries(), &vec![(-4, 1), (1, 2), (2, 1), (3, 3)]);
    assert_eq!(table.total(), Some(7));
    assert_eq!(FrequencyTable::single(5).into_inner(), vec![(5, 1)]);
    assert_eq!(FrequencyTable::new().total(), Some(0));
}

#[test]
fn merging_tables_sums_counts() {
    let mut a = FrequencyTable::new();
    let mut b = FrequencyTable::new();
    let mut c = FrequencyTable::new();
    for outcome in [1, 2, 2, 5] {
        a.record(outcome);
    }
    for outcome in [2, 3, 5, 5, 9] {
        b.record(outcome);
    }
    for outcome in [0, 9] {
        c.record(outcome);
    }
    let merged = a.merge(&b);
    assert_eq!(merged.entries(), &vec![(1, 1), (2, 3), (3, 1), (5, 3), (9, 1)]);
    assert_eq!(merged, b.merge(&a));
    assert_eq!(a.merge(&b).merge(&c), a.merge(&b.merge(&c)));
    assert_eq!(a.merge(&FrequencyTable::new()), a);
    assert_eq!(a.clone(), a);
    assert_eq!(a.merge(&b).merge(&c).total(), Some(11));
}

#[test]
fn simulation() {
    let mut roller = NaiveRoller::new_seeded(17);
    let expr = parse("2d6").unwrap();
    let table = simulate(&mut roller, &expr, 2000).unwrap();
    assert_eq!(table.total(), Some(2000));
    let entries = table.entries();
    assert!(entries.windows(2).all(|w| w[0].0 < w[1].0));
    assert!(entries.iter().all(|(outcome, count)| 2 <= *outcome && *outcome <= 12 && *count >= 1));
    assert_eq!(entries.len(), 11);
    let constant = simulate(&mut roller, &parse("2 + 3").unwrap(), 10).unwrap();
    assert_eq!(constant.entries(), &vec![(5, 10)]);
    assert_eq!(simulate(&mut roller, &expr, 0).unwrap().entries(), &vec![]);
    assert_eq!(
        simulate(&mut roller, &parse("4d6kh5").unwrap(), 10).unwrap_err(),
        RollerError::TruncationFailure { rolled: 4, removed: 5 }
    );
    assert_eq!(SimulationOptions::default().trials, 0);
    assert_eq!(DisplayOptions::default().height, 0);
    assert_eq!(DisplayOptions::default().width, 0);
}

#[test]
fn batches_hold_every_trial_once() {
    for (trials, batch) in [(0u64, 1u64), (1, 1), (10, 3), (12, 4), (4096, 4096), (4097, 4096), (5, 100)] {
        let count = batch_count(trials, batch);
        let mut sum = 0u64;
        for index in 0..count {
            let n = batch_trials(trials, batch, index);
            assert!(n >= 1 && n <= batch);
            sum += n;
        }
        assert_eq!(sum, trials);
        assert_eq!(batch_trials(trials, batch, count), 0);
    }
}

#[test]
fn batch_sizes_are_exact() {
    assert_eq!(batch_count(10, 3), 4);
    assert_eq!(batch_trials(10, 3, 0), 3);
    assert_eq!(batch_trials(10, 3, 2), 3);
    assert_eq!(batch_trials(10, 3, 3), 1);
    assert_eq!(batch_trials(10, 3, 4), 0);
    assert_eq!(batch_count(12, 4), 3);
    assert_eq!(batch_trials(12, 4, 2), 4);
    assert_eq!(batch_count(0, 7), 0);
    assert_eq!(batch_count(u64::MAX, 1), u64::MAX);
    assert_eq!(batch_count(u64::MAX, 2), (u64::MAX / 2) + 1);
    assert_eq!(batch_trials(u64::MAX, 2, u64::MAX / 2), 1);
    assert_eq!(batch_trials(u64::MAX, 2, u64::MAX), 0);
    assert_eq!(batch_trials(u64::MAX, u64::MAX, 0), u64::MAX);
    assert_eq!(TRIALS_PER_BATCH, 4096);
}
