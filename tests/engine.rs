use dessert::{Engine, Event, State, Timestamp};

/// Ticks in one unit of model time.
const UNIT: Timestamp = 1000;

#[derive(Default, Clone, Debug)]
struct Counter {
    ticks: u32,
}

#[derive(Clone, Debug)]
struct Tick {
    at: Timestamp,
    left: u32,
    step: Timestamp,
}

impl Event<Counter> for Tick {
    fn time(&self) -> Timestamp {
        self.at
    }

    fn execute(self, state: &mut State<Counter, Tick>) {
        state.state_mut().ticks += 1;
        if self.left > 0 {
            state.schedule(Tick { at: self.at + self.step, left: self.left - 1, step: self.step });
        }
    }
}

fn counter_engine(left: u32, step: Timestamp) -> Engine<Counter, Tick> {
    let mut engine = Engine::<Counter, Tick>::new(Counter::default());
    engine.schedule(Tick { at: 0, left, step });
    engine
}

fn history_times(engine: &Engine<Counter, Tick>) -> Vec<Timestamp> {
    engine.history().iter().map(|s| s.now()).collect()
}

fn log_times(engine: &Engine<Counter, Tick>) -> Vec<Timestamp> {
    engine.events().iter().map(|e| e.0).collect()
}

#[test]
fn counter_advances() {
    let mut engine = counter_engine(3, UNIT / 2);
    engine.run_until(10 * UNIT);
    assert_eq!(engine.state().ticks, 4);
    assert!(engine.now() >= 10 * UNIT);
}

#[test]
fn counter_scenario_one_unit_steps() {
    let mut engine = counter_engine(3, UNIT);
    engine.run_until(10 * UNIT);
    assert_eq!(engine.state().ticks, 4);
    assert!(engine.now() >= 10 * UNIT);
    assert_eq!(log_times(&engine), vec![0, UNIT, 2 * UNIT, 3 * UNIT]);
}

#[test]
fn new_engine_starts_at_zero() {
    let engine = Engine::<Counter, Tick>::new(Counter { ticks: 7 });
    assert_eq!(engine.now(), 0);
    assert_eq!(engine.state().ticks, 7);
    assert_eq!(engine.history().len(), 1);
    assert_eq!(engine.history()[0].now(), 0);
    assert_eq!(engine.history()[0].state().ticks, 7);
    assert!(engine.events().is_empty());
}

#[test]
fn history_times_never_go_backward() {
    let mut engine = counter_engine(5, 3);
    engine.run_until(7);
    engine.run_until(40);
    let times = history_times(&engine);
    assert!(times.windows(2).all(|w| w[0] <= w[1]));
    assert_eq!(*times.last().unwrap(), 40);
}

#[test]
fn snapshot_per_event_plus_closing() {
    let mut engine = counter_engine(3, 2);
    engine.run_until(100);
    // start, four events, and the closing snapshot at the horizon
    assert_eq!(engine.events().len(), 4);
    assert_eq!(engine.history().len(), 1 + 4 + 1);
    assert_eq!(history_times(&engine), vec![0, 0, 2, 4, 6, 100]);
}

#[test]
fn no_closing_snapshot_when_last_event_is_at_horizon() {
    let mut engine = counter_engine(3, 2);
    engine.run_until(6);
    assert_eq!(engine.events().len(), 4);
    assert_eq!(engine.history().len(), 1 + 4);
    assert_eq!(engine.now(), 6);
}

#[test]
fn horizon_reached_with_empty_queue() {
    let mut engine = Engine::<Counter, Tick>::new(Counter::default());
    engine.run_until(5 * UNIT);
    assert_eq!(engine.now(), 5 * UNIT);
    assert_eq!(history_times(&engine), vec![0, 5 * UNIT]);
}

#[test]
fn later_event_stays_pending() {
    let mut engine = Engine::<Counter, Tick>::new(Counter::default());
    engine.schedule(Tick { at: 20, left: 0, step: 1 });
    engine.run_until(10);
    assert_eq!(engine.now(), 10);
    assert_eq!(engine.state().ticks, 0);
    assert!(engine.events().is_empty());
    engine.run_until(30);
    assert_eq!(engine.state().ticks, 1);
    assert_eq!(log_times(&engine), vec![20]);
    assert_eq!(engine.now(), 30);
}

#[test]
fn earlier_horizon_keeps_clock() {
    let mut engine = Engine::<Counter, Tick>::new(Counter::default());
    engine.run_until(50);
    engine.run_until(10);
    assert_eq!(engine.now(), 50);
    assert_eq!(engine.history().len(), 2);
}

#[test]
fn split_run_matches_single_run() {
    let mut split = counter_engine(6, 3);
    split.run_until(7);
    split.run_until(30);
    let mut single = counter_engine(6, 3);
    single.run_until(30);
    assert_eq!(split.now(), single.now());
    assert_eq!(split.state().ticks, single.state().ticks);
    assert_eq!(split.state().ticks, 7);
    assert_eq!(log_times(&split), log_times(&single));
}

#[test]
fn rerun_to_same_horizon_changes_nothing() {
    let mut engine = counter_engine(10, 3);
    engine.run_until(12);
    let now = engine.now();
    let ticks = engine.state().ticks;
    let history = history_times(&engine);
    let log = log_times(&engine);
    engine.run_until(12);
    assert_eq!(engine.now(), now);
    assert_eq!(engine.state().ticks, ticks);
    assert_eq!(history_times(&engine), history);
    assert_eq!(log_times(&engine), log);
}

#[test]
fn event_log_in_time_order_one_per_event() {
    let mut engine = counter_engine(4, 5);
    engine.run_until(1000);
    let log = log_times(&engine);
    assert_eq!(log.len(), engine.state().ticks as usize);
    assert!(log.windows(2).all(|w| w[0] <= w[1]));
}

#[test]
fn event_label_is_debug_rendering() {
    let mut engine = counter_engine(0, 1);
    engine.run_until(1);
    assert_eq!(engine.events()[0].1, "Tick { at: 0, left: 0, step: 1 }");
}

#[test]
fn same_time_events_all_run() {
    let mut engine = Engine::<Counter, Tick>::new(Counter::default());
    for _ in 0..3 {
        engine.schedule(Tick { at: 4, left: 0, step: 1 });
    }
    engine.run_until(4);
    assert_eq!(engine.state().ticks, 3);
    assert_eq!(log_times(&engine), vec![4, 4, 4]);
    assert_eq!(engine.history().len(), 4);
}

#[test]
fn events_run_earliest_first() {
    let mut engine = Engine::<Counter, Tick>::new(Counter::default());
    for at in [9, 3, 7, 1, 5] {
        engine.schedule(Tick { at, left: 0, step: 1 });
    }
    engine.run_until(10);
    assert_eq!(log_times(&engine), vec![1, 3, 5, 7, 9]);
}

#[derive(Clone, Debug)]
struct Late {
    at: Timestamp,
    back: bool,
}

impl Event<Counter> for Late {
    fn time(&self) -> Timestamp {
        self.at
    }

    fn execute(self, state: &mut State<Counter, Late>) {
        state.state_mut().ticks += 1;
        if self.back {
            // schedules work before the current time
            state.schedule(Late { at: 2, back: false });
        }
    }
}

#[test]
fn event_scheduled_in_the_past_runs_now() {
    let mut engine = Engine::<Counter, Late>::new(Counter::default());
    engine.schedule(Late { at: 8, back: true });
    engine.run_until(20);
    assert_eq!(engine.state().ticks, 2);
    let log: Vec<Timestamp> = engine.events().iter().map(|e| e.0).collect();
    assert_eq!(log, vec![8, 8]);
    let times: Vec<Timestamp> = engine.history().iter().map(|s| s.now()).collect();
    assert_eq!(times, vec![0, 8, 8, 20]);
}

#[test]
fn state_mut_between_runs() {
    let mut engine = counter_engine(0, 1);
    engine.state_mut().ticks = 40;
    engine.run_until(3);
    assert_eq!(engine.state().ticks, 41);
    assert_eq!(engine.history().last().unwrap().state().ticks, 41);
}

#[test]
fn state_handle_on_its_own() {
    let mut st = State::<Counter, Tick>::new(Counter { ticks: 2 });
    assert_eq!(st.now(), 0);
    assert_eq!(st.state().ticks, 2);
    st.state_mut().ticks = 9;
    st.schedule(Tick { at: 3, left: 0, step: 1 });
    assert_eq!(st.state().ticks, 9);
    assert_eq!(st.now(), 0);
}

const BATCH: u32 = 5;

#[derive(Default, Clone, Debug)]
struct Works {
    stock: u32,
    cycles: u32,
}

#[derive(Clone, Debug)]
enum Phase {
    Wait { at: Timestamp, actor: u32 },
    Produce { at: Timestamp, actor: u32 },
    Deliver { at: Timestamp, actor: u32 },
}

impl Event<Works> for Phase {
    fn time(&self) -> Timestamp {
        match *self {
            Phase::Wait { at, .. } | Phase::Produce { at, .. } | Phase::Deliver { at, .. } => at,
        }
    }

    fn execute(self, state: &mut State<Works, Phase>) {
        match self {
            Phase::Wait { at, actor } => {
                state.schedule(Phase::Produce { at: at + 1 + actor as Timestamp, actor })
            }
            Phase::Produce { at, actor } => state.schedule(Phase::Deliver { at: at + 3, actor }),
            Phase::Deliver { at, actor } => {
                let works = state.state_mut();
                works.stock += BATCH;
                works.cycles += 1;
                state.schedule(Phase::Wait { at: at + 2, actor });
            }
        }
    }
}

#[test]
fn chained_production() {
    let mut engine = Engine::<Works, Phase>::new(Works::default());
    for actor in 0..3 {
        engine.schedule(Phase::Wait { at: 0, actor });
    }
    engine.run_until(40);
    let works = engine.state();
    assert!(works.cycles >= 3);
    assert_eq!(works.stock, works.cycles * BATCH);
    let ran = engine.events().len();
    let closing = usize::from(engine.history()[ran].now() != engine.now());
    assert_eq!(engine.history().len(), 1 + ran + closing);
    assert_eq!(engine.now(), 40);
}

#[derive(Default, Clone, Debug)]
struct Seen {
    clocks: Vec<Timestamp>,
}

#[derive(Clone, Debug)]
struct Look {
    at: Timestamp,
    then: Option<Timestamp>,
}

impl Event<Seen> for Look {
    fn time(&self) -> Timestamp {
        self.at
    }

    fn execute(self, state: &mut State<Seen, Look>) {
        let now = state.now();
        state.state_mut().clocks.push(now);
        if let Some(at) = self.then {
            state.schedule(Look { at, then: None });
        }
    }
}

#[test]
fn event_sees_its_running_time() {
    let mut engine = Engine::<Seen, Look>::new(Seen::default());
    engine.schedule(Look { at: 5, then: Some(2) });
    engine.schedule(Look { at: 9, then: None });
    engine.run_until(12);
    assert_eq!(engine.state().clocks, vec![5, 5, 9]);
    let snapshots: Vec<usize> = engine.history().iter().map(|s| s.state().clocks.len()).collect();
    assert_eq!(snapshots, vec![0, 1, 2, 3, 3]);
}
