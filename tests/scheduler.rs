use jari::resolver::resolve;
use jari::scheduler::{format_hint, Command, CommandError, Effect, Scheduler, TickPlan};

fn s(x: &str) -> String {
    x.to_string()
}

#[test]
fn commands_on_missing_station_fail() {
    let mut sch = Scheduler::new(0, 10_000_000);
    assert!(matches!(
        sch.apply(Command::RemoveRadio { radio: s("a") }),
        Err(CommandError::NoSuchStation)
    ));
    assert!(matches!(
        sch.apply(Command::Order { radio: s("a"), order: vec![1] }),
        Err(CommandError::NoSuchStation)
    ));
    assert!(matches!(
        sch.apply(Command::Remove { radio: s("a"), song: 1 }),
        Err(CommandError::NoSuchStation)
    ));
}

#[test]
fn add_order_and_remove_song() {
    let mut sch = Scheduler::new(0, 10_000_000);
    assert!(matches!(
        sch.apply(Command::AddRadio { radio: s("a") }),
        Ok(Some(Effect::CreateStationDir { .. }))
    ));
    assert!(matches!(sch.apply(Command::Order { radio: s("a"), order: vec![3, 1, 3, 2] }), Ok(None)));
    assert_eq!(sch.station_order(&s("a")), Some(vec![3, 1, 3, 2]));
    match sch.apply(Command::Remove { radio: s("a"), song: 3 }) {
        Ok(Some(Effect::RemoveSongDir { radio, song })) => {
            assert_eq!(radio, "a");
            assert_eq!(song, 3);
        }
        _ => panic!("expected a directory removal"),
    }
    assert_eq!(sch.station_order(&s("a")), Some(vec![1, 2]));
    assert_eq!(sch.station_names(), vec![s("a")]);
}

#[test]
fn upload_strips_dots_from_hint() {
    let mut sch = Scheduler::new(0, 10_000_000);
    match sch.apply(Command::Upload { radio: s("a"), song: 4, ext: s(".mp3"), data: vec![1, 2] }) {
        Ok(Some(Effect::Ingest { radio, song, hint, data })) => {
            assert_eq!(radio, "a");
            assert_eq!(song, 4);
            assert_eq!(hint, "mp3");
            assert_eq!(data, vec![1, 2]);
        }
        _ => panic!("expected an ingest"),
    }
    assert_eq!(format_hint("..fl.ac"), "flac");
    assert_eq!(format_hint(""), "");
}

#[test]
fn removing_a_station_leaves_others_ticking() {
    let mut sch = Scheduler::new(0, 10_000_000);
    let _ = sch.apply(Command::AddRadio { radio: s("a") });
    let _ = sch.apply(Command::AddRadio { radio: s("b") });
    let _ = sch.apply(Command::Order { radio: s("a"), order: vec![1] });
    let _ = sch.apply(Command::Order { radio: s("b"), order: vec![2] });
    let lens = vec![(2u8, 30000u64)];
    assert_eq!(
        sch.plan_tick(&s("b"), &lens, 12000),
        Some(TickPlan::Recode { song: 2, chunk: 1, reset: true })
    );
    assert!(sch.recoded(&s("b")));
    assert!(matches!(sch.apply(Command::RemoveRadio { radio: s("a") }), Ok(Some(Effect::RemoveStationDir { .. }))));
    assert_eq!(sch.plan_tick(&s("a"), &lens, 22000), None);
    assert_eq!(
        sch.plan_tick(&s("b"), &lens, 22000),
        Some(TickPlan::Recode { song: 2, chunk: 2, reset: false })
    );
    assert_eq!(sch.station_names(), vec![s("b")]);
}

#[test]
fn chunk_zero_flags_a_reset_until_recoded() {
    let mut sch = Scheduler::new(0, 10_000_000);
    sch.add_radio(s("a"));
    let lens = vec![(1u8, 25000u64), (2u8, 25000u64)];
    assert_eq!(
        sch.plan_tick(&s("a"), &lens, 15000),
        Some(TickPlan::Recode { song: 1, chunk: 1, reset: true })
    );
    sch.recoded(&s("a"));
    assert_eq!(
        sch.plan_tick(&s("a"), &lens, 25000),
        Some(TickPlan::Recode { song: 2, chunk: 0, reset: true })
    );
    assert_eq!(
        sch.plan_tick(&s("a"), &lens, 35000),
        Some(TickPlan::Recode { song: 2, chunk: 1, reset: true })
    );
    sch.recoded(&s("a"));
    assert_eq!(
        sch.plan_tick(&s("a"), &lens, 45000),
        Some(TickPlan::Recode { song: 2, chunk: 2, reset: false })
    );
    assert_eq!(sch.plan_tick(&s("a"), &vec![], 45000), Some(TickPlan::Silence));
    assert!(resolve(&vec![], 1).is_none());
}

#[test]
fn tick_fires_past_half_interval_and_advances_by_one_interval() {
    let mut sch = Scheduler::new(1_000, 10_000);
    assert!(!sch.poll_tick(6_000));
    assert!(sch.poll_tick(6_001));
    // The clock now stands at 11_000.
    assert!(!sch.poll_tick(6_002));
    assert!(!sch.poll_tick(16_000));
    assert!(sch.poll_tick(16_001));
}
