use wafel_core::edit_log::{CellWrite, EditLog, MAX_FRAME};
use wafel_core::simulation::StepFunction;
use wafel_core::timeline::Timeline;

/// Cell 0 counts frames; cell 1 adds cell 0 to itself each frame.
struct Counter;

impl StepFunction for Counter {
    fn step(&self, mem: &mut Vec<i64>) {
        mem[0] += 1;
        mem[1] += mem[0];
    }
}

fn store(cell: usize, value: i64) -> Vec<CellWrite> {
    vec![CellWrite { cell, value }]
}

fn replay(power_on: &[i64], edits: &[(u32, Vec<CellWrite>)], frame: u32) -> Vec<i64> {
    let apply = |mem: &mut Vec<i64>, f: u32| {
        for (ef, ws) in edits {
            if *ef == f {
                for w in ws {
                    if w.cell < mem.len() {
                        mem[w.cell] = w.value;
                    }
                }
            }
        }
    };
    let mut mem = power_on.to_vec();
    apply(&mut mem, 0);
    for f in 1..=frame {
        Counter.step(&mut mem);
        apply(&mut mem, f);
    }
    mem
}

fn timeline(slots: usize) -> Timeline<Counter> {
    Timeline::new(Counter, vec![0, 0], slots)
}

#[test]
fn frame_without_edits_counts_steps() {
    let t = timeline(3);
    assert_eq!(t.frame(0), vec![0, 0]);
    assert_eq!(t.frame(5), vec![5, 15]);
}

#[test]
fn frame_is_idempotent() {
    let mut t = timeline(3);
    t.set_edit(2, store(1, 100));
    t.set_hotspot("cursor", 8);
    t.balance_distribution(1000000000);
    let first = t.frame(9);
    let second = t.frame(9);
    assert_eq!(first, second);
}

#[test]
fn frame_matches_replay_whatever_the_slots_hold() {
    let mut t = timeline(4);
    let edits = vec![(0u32, store(1, 7)), (3, store(0, 10)), (6, store(1, -4))];
    for (f, ws) in &edits {
        t.set_edit(*f, ws.clone());
    }
    for f in 0..12 {
        assert_eq!(t.frame(f), replay(&[0, 0], &edits, f));
    }
    t.set_hotspot("a", 5);
    t.set_hotspot("b", 11);
    t.balance_distribution(1000000000);
    for f in 0..12 {
        assert_eq!(t.frame(f), replay(&[0, 0], &edits, f));
    }
}

#[test]
fn insert_then_delete_restores_frames() {
    let mut t = timeline(3);
    t.set_edit(4, store(0, 20));
    t.set_hotspot("h", 6);
    t.balance_distribution(1000000000);
    let before: Vec<Vec<i64>> = (0..10).map(|f| t.frame(f)).collect();
    t.insert_frame(2);
    t.delete_frame(2);
    let after: Vec<Vec<i64>> = (0..10).map(|f| t.frame(f)).collect();
    assert_eq!(before, after);
    assert_eq!(t.edit(4), Some(&store(0, 20)));
    assert_eq!(t.edit(5), None);
}

#[test]
fn insert_shifts_later_edits_and_keeps_earlier_frames() {
    let mut t = timeline(3);
    t.set_edit(1, store(1, 50));
    t.set_edit(6, store(0, 0));
    t.set_hotspot("h", 7);
    t.balance_distribution(1000000000);
    let early: Vec<Vec<i64>> = (0..4).map(|f| t.frame(f)).collect();
    t.insert_frame(4);
    let later: Vec<Vec<i64>> = (0..4).map(|f| t.frame(f)).collect();
    assert_eq!(early, later);
    assert_eq!(t.edit(1), Some(&store(1, 50)));
    assert_eq!(t.edit(4), None);
    assert_eq!(t.edit(6), None);
    assert_eq!(t.edit(7), Some(&store(0, 0)));
}

#[test]
fn balance_never_changes_frames() {
    let mut t = timeline(5);
    t.set_edit(3, store(0, 100));
    let before: Vec<Vec<i64>> = (0..40).map(|f| t.frame(f)).collect();
    t.balance_distribution(0);
    t.set_hotspot("h", 30);
    t.balance_distribution(0);
    t.balance_distribution(1000000000);
    t.balance_distribution(1000000000);
    let after: Vec<Vec<i64>> = (0..40).map(|f| t.frame(f)).collect();
    assert_eq!(before, after);
}

#[test]
fn counter_edit_moves_with_inserted_frame() {
    // 1 base slot + 3 backup slots; the edit at frame 3 adds 1 to the counter.
    let mut t = timeline(3);
    let base3 = t.frame(3)[0];
    t.set_edit(3, store(0, base3 + 1));
    let base5 = timeline(3).frame(5)[0];
    assert_eq!(t.frame(5)[0], base5 + 1);
    t.insert_frame(2);
    assert_eq!(t.edit(3), None);
    assert_eq!(t.edit(4), Some(&store(0, base3 + 1)));
    // The edit now sets the counter to 4 at frame 4, where it already is.
    assert_eq!(t.frame(4)[0], 4);
    assert_eq!(t.frame(5)[0], 5);
    assert_eq!(t.frame(5)[0], base5);
}

#[test]
fn hotspot_balancing_brings_a_slot_to_the_hotspot() {
    let mut t = timeline(3);
    let cold = t.resimulation_cost(1000);
    assert_eq!(cold, 1000);
    t.set_hotspot("cursor", 1000);
    let mut last = cold;
    for _ in 0..4 {
        t.balance_distribution(100000000);
        let cost = t.resimulation_cost(1000);
        assert!(cost <= last);
        last = cost;
    }
    assert_eq!(last, 0);
    assert_eq!(t.frame(1000), timeline(0).frame(1000));
}

#[test]
fn hotspot_is_replaced_by_name() {
    let mut t = timeline(2);
    t.set_hotspot("cursor", 1000);
    t.set_hotspot("cursor", 200);
    t.balance_distribution(1000000000);
    assert_eq!(t.resimulation_cost(200), 0);
    assert_eq!(t.resimulation_cost(184), 0);
    assert_eq!(t.resimulation_cost(183), 183);
    assert_eq!(t.resimulation_cost(1000), 800);
}

#[test]
fn slots_spread_behind_the_hotspot() {
    let mut t = timeline(3);
    t.set_hotspot("cursor", 100);
    t.balance_distribution(1000000000);
    // Slots at 100, 100 - 16 and 100 - 4 * 16.
    assert_eq!(t.resimulation_cost(100), 0);
    assert_eq!(t.resimulation_cost(90), 6);
    assert_eq!(t.resimulation_cost(84), 0);
    assert_eq!(t.resimulation_cost(40), 4);
    assert_eq!(t.resimulation_cost(36), 0);
    assert_eq!(t.resimulation_cost(30), 30);
}

#[test]
fn edit_at_frame_zero_is_applied_to_frame_zero() {
    let mut t = timeline(1);
    t.set_edit(0, store(0, 10));
    assert_eq!(t.frame(0), vec![10, 0]);
    assert_eq!(t.frame(1), vec![11, 11]);
}

#[test]
fn remove_edit_restores_simulation() {
    let mut t = timeline(1);
    t.set_edit(2, store(1, 1000));
    assert_eq!(t.frame(3)[1], 1003);
    t.remove_edit(2);
    assert_eq!(t.frame(3), vec![3, 6]);
}

#[test]
fn edit_log_set_get_remove() {
    let mut log = EditLog::new();
    assert_eq!(log.get(3), None);
    log.set(3, store(0, 1));
    log.set(1, store(0, 2));
    log.set(3, store(0, 3));
    assert_eq!(log.get(1), Some(&store(0, 2)));
    assert_eq!(log.get(3), Some(&store(0, 3)));
    log.remove(1);
    assert_eq!(log.get(1), None);
    assert_eq!(log.get(3), Some(&store(0, 3)));
}

#[test]
fn edit_log_insert_and_delete_shift() {
    let mut log = EditLog::new();
    log.set(2, store(0, 2));
    log.set(5, store(0, 5));
    assert_eq!(log.insert_frame(2), 2);
    assert_eq!(log.get(2), None);
    assert_eq!(log.get(3), Some(&store(0, 2)));
    assert_eq!(log.get(6), Some(&store(0, 5)));
    assert_eq!(log.delete_frame(3), 3);
    assert_eq!(log.get(3), None);
    assert_eq!(log.get(5), Some(&store(0, 5)));
    assert_eq!(log.get(6), None);
    assert_eq!(log.delete_frame(0), 0);
    assert_eq!(log.get(4), Some(&store(0, 5)));
}

#[test]
fn edit_log_drops_edit_pushed_past_the_last_frame() {
    let mut log = EditLog::new();
    log.set(MAX_FRAME, store(0, 9));
    log.set(MAX_FRAME - 1, store(0, 8));
    log.insert_frame(0);
    assert_eq!(log.get(MAX_FRAME), Some(&store(0, 8)));
    assert_eq!(log.get(MAX_FRAME - 1), None);
}

#[test]
fn balance_step_stops_once_the_budget_is_spent() {
    let mut t = timeline(3);
    t.set_hotspot("cursor", 50);
    assert!(!t.balance_step(10, 10));
    assert!(!t.balance_step(0, 0));
    assert_eq!(t.resimulation_cost(50), 50);
    assert!(t.balance_step(0, 10));
    assert_eq!(t.resimulation_cost(50), 0);
    assert!(t.balance_step(5, 10));
    assert_eq!(t.resimulation_cost(34), 0);
    assert!(t.balance_step(5, 10));
    assert!(!t.balance_step(5, 10));
    assert_eq!(t.resimulation_cost(49), 15);
}

#[test]
fn zero_budget_moves_no_slot() {
    let mut t = timeline(3);
    t.set_hotspot("cursor", 500);
    t.balance_distribution(0);
    assert_eq!(t.resimulation_cost(500), 500);
}

#[test]
fn empty_edit_removes_the_frame_edit() {
    let mut t = timeline(1);
    t.set_edit(2, store(0, 9));
    t.set_edit(2, vec![]);
    assert_eq!(t.edit(2), None);
    assert_eq!(t.frame(3), vec![3, 6]);
}

#[test]
fn balancing_fills_slots_in_order() {
    let mut t = timeline(3);
    t.set_hotspot("cursor", 1000);
    assert!(t.balance_step(0, 1));
    // The first slot goes to the hotspot itself.
    assert_eq!(t.resimulation_cost(1000), 0);
    assert_eq!(t.resimulation_cost(999), 999);
}
