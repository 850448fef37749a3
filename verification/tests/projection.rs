use toro::config::{Config, NetworkConfig, OrderRejection, RestaurantConfig};
use toro::event::{Event, Payload};
use toro::projector::{EventSource, ProjectorError, RestaurantProjector, StoreError};
use toro::report::render_table_report;
use toro::restaurant::{CookingTimeEstimator, Item, Table};
use toro::toro::{Command, Toro};

struct MyEventSource {
    max_version: u64,
    events: Vec<Event>,
}

impl MyEventSource {
    fn new(max_version: u64) -> Self {
        Self {
            max_version,
            events: vec![
                Event::new(1, Command::New, 1)
                    .with_payload(Payload::new(0, vec![Item::new("a".into(), 1, 1)])),
                Event::new(2, Command::New, 1)
                    .with_payload(Payload::new(1, vec![Item::new("b".into(), 2, 1)])),
                Event::new(3, Command::Cancel, 1)
                    .with_payload(Payload::new(0, vec![Item::new("a".into(), 1, 1)])),
                Event::new(4, Command::Cancel, 1)
                    .with_payload(Payload::new(1, vec![Item::new("b".into(), 1, 1)])),
                Event::new(5, Command::Cancel, 1)
                    .with_payload(Payload::new(1, vec![Item::new("b".into(), 1, 1)])),
                Event::new(6, Command::New, 1)
                    .with_payload(Payload::new(0, vec![Item::new("a".into(), 1, 1)])),
                Event::new(7, Command::New, 1)
                    .with_payload(Payload::new(1, vec![Item::new("b".into(), 2, 1)])),
                Event::new(8, Command::Yeet, 1),
            ],
        }
    }
}

impl EventSource for MyEventSource {
    fn fetch(&self, from_version: u64) -> Result<Vec<Event>, StoreError> {
        let result = self
            .events
            .iter()
            .filter(|e| e.version >= from_version && e.version <= self.max_version)
            .cloned()
            .collect();
        Ok(result)
    }
}

fn initialize_projector_to_version(ver: u64) -> RestaurantProjector<MyEventSource> {
    let source = MyEventSource::new(ver);
    let mut projector = RestaurantProjector::new(10, source);
    projector.update().unwrap();
    projector
}

#[test]
fn test_new_order_projection() {
    let projector = initialize_projector_to_version(2);
    let item1 = projector.tables[0].get_item("a").unwrap();
    assert_eq!(item1.quantity, 1);
    let item2 = projector.tables[1].get_item("b").unwrap();
    assert_eq!(item2.quantity, 2);
}

#[test]
fn test_cancel_order_projection() {
    let projector = initialize_projector_to_version(4);
    assert!(projector.tables[0].get_item("a").is_none());
    assert!(projector.tables[1].get_item("b").is_some());
    let projector = initialize_projector_to_version(5);
    assert!(projector.tables[0].get_item("a").is_none());
    assert!(projector.tables[1].get_item("b").is_none());
}

#[test]
fn test_yeet_projection() {
    let projector = initialize_projector_to_version(8);
    assert!(projector.tables[0].get_item("a").is_none());
    assert!(projector.tables[1].get_item("b").is_none());
}

// Catch-up twice with nothing new: the version and every table stay put.
#[test]
fn test_idempotent_update() {
    let mut projector = initialize_projector_to_version(7);
    assert_eq!(projector.current_version, 7);
    let a_before = projector.tables[0].get_item("a").map(|i| i.quantity);
    let b_before = projector.tables[1].get_item("b").map(|i| i.quantity);
    projector.update().unwrap();
    assert_eq!(projector.current_version, 7);
    assert_eq!(projector.tables[0].get_item("a").map(|i| i.quantity), a_before);
    assert_eq!(projector.tables[1].get_item("b").map(|i| i.quantity), b_before);
}

// Two fresh projectors over the same events land in identical states.
#[test]
fn test_replay_determinism() {
    let p1 = initialize_projector_to_version(7);
    let p2 = initialize_projector_to_version(7);
    assert_eq!(p1.current_version, p2.current_version);
    for t in 0..10usize {
        for name in ["a", "b"] {
            let i1 = p1.tables[t].get_item(name).map(|i| (i.quantity, i.cooking_time, i.timestamp));
            let i2 = p2.tables[t].get_item(name).map(|i| (i.quantity, i.cooking_time, i.timestamp));
            assert_eq!(i1, i2);
        }
    }
}

fn fixed_source(events: Vec<Event>) -> MyEventSource {
    MyEventSource {
        max_version: u64::MAX,
        events,
    }
}

// Two `New` events merge quantities like a single summed `New`.
#[test]
fn test_quantity_merge() {
    let split = fixed_source(vec![
        Event::new(1, Command::New, 1)
            .with_payload(Payload::new(0, vec![Item::new("x".into(), 3, 1)])),
        Event::new(2, Command::New, 2)
            .with_payload(Payload::new(0, vec![Item::new("x".into(), 4, 2)])),
    ]);
    let mut p_split = RestaurantProjector::new(1, split);
    p_split.update().unwrap();

    let merged = fixed_source(vec![
        Event::new(1, Command::Yeet, 1),
        Event::new(2, Command::New, 2)
            .with_payload(Payload::new(0, vec![Item::new("x".into(), 7, 2)])),
    ]);
    let mut p_merged = RestaurantProjector::new(1, merged);
    p_merged.update().unwrap();

    let a = p_split.tables[0].get_item("x").unwrap();
    let b = p_merged.tables[0].get_item("x").unwrap();
    assert_eq!(a.quantity, 7);
    assert_eq!(a.quantity, b.quantity);
    assert_eq!(a.cooking_time, b.cooking_time);
    assert_eq!(a.timestamp, b.timestamp);
}

// Cancelling more than was ordered removes the entry; never negative.
#[test]
fn test_cancel_floor() {
    let source = fixed_source(vec![
        Event::new(1, Command::New, 1)
            .with_payload(Payload::new(0, vec![Item::new("x".into(), 2, 1)])),
        Event::new(2, Command::Cancel, 2)
            .with_payload(Payload::new(0, vec![Item::new("x".into(), 5, 2)])),
        Event::new(3, Command::Cancel, 3)
            .with_payload(Payload::new(0, vec![Item::new("x".into(), 5, 3)])),
    ]);
    let mut p = RestaurantProjector::new(1, source);
    p.update().unwrap();
    assert!(p.tables[0].get_item("x").is_none());
}

// The versioned scenario: two orders, two cancellations, then a reset.
#[test]
fn test_versioned_scenario() {
    let mut p = RestaurantProjector::new(10, MyEventSource::new(2));
    p.update().unwrap();
    assert_eq!(p.current_version, 2);
    assert_eq!(p.tables[0].get_item("a").unwrap().quantity, 1);
    assert_eq!(p.tables[1].get_item("b").unwrap().quantity, 2);

    let mut p = RestaurantProjector::new(10, MyEventSource::new(4));
    p.update().unwrap();
    assert_eq!(p.current_version, 4);
    assert_eq!(p.tables[1].get_item("b").unwrap().quantity, 1);

    let mut p = RestaurantProjector::new(10, MyEventSource::new(5));
    p.update().unwrap();
    assert_eq!(p.current_version, 5);
    assert!(p.tables[1].get_item("b").is_none());

    let yeeted = fixed_source(vec![
        Event::new(1, Command::New, 1)
            .with_payload(Payload::new(3, vec![Item::new("a".into(), 9, 1)])),
        Event::new(2, Command::Yeet, 2),
    ]);
    let mut p = RestaurantProjector::new(10, yeeted);
    p.update().unwrap();
    assert_eq!(p.current_version, 2);
    for t in 0..10usize {
        assert!(p.tables[t].get_item("a").is_none());
    }
}

// An order for a table outside the fixed collection fails loudly.
#[test]
fn test_out_of_range_table() {
    let toro = Toro::from_toro_string("new order for table 2: x * 1").unwrap();
    let event = Event::from_toro(&toro, 1, 1).unwrap();
    let mut p = RestaurantProjector::new(2, fixed_source(vec![]));
    let r = p.apply_events(vec![event]);
    assert!(matches!(
        r,
        Err(ProjectorError::TableNotFound { table_id: 2 })
    ));
    assert_eq!(p.current_version, 0);
}

// A gap in the version sequence stops replay before anything is applied.
#[test]
fn test_version_gap() {
    let source = fixed_source(vec![
        Event::new(2, Command::New, 1)
            .with_payload(Payload::new(0, vec![Item::new("x".into(), 1, 1)])),
    ]);
    let mut p = RestaurantProjector::new(1, source);
    let r = p.update();
    assert!(matches!(
        r,
        Err(ProjectorError::VersionGap { current: 0, got: 2 })
    ));
    assert_eq!(p.current_version, 0);
    assert!(p.tables[0].get_item("x").is_none());
}

// A `New` or `Cancel` event without a payload is a protocol fault.
#[test]
fn test_missing_payload() {
    let source = fixed_source(vec![Event::new(1, Command::New, 1)]);
    let mut p = RestaurantProjector::new(1, source);
    assert!(matches!(p.update(), Err(ProjectorError::MissingPayload)));
}

// The estimator formula, pinned to exact values.
#[test]
fn test_estimator_values() {
    // one-byte name, quantity 1 at version 1: (60 + 60) * log_2.71(3) = 120 * 1
    let it = Item::new("a".into(), 1, 0);
    assert_eq!(CookingTimeEstimator::estimate(&it, 1), 120);
    // quantity 0: log of 2 truncates to zero
    let it = Item::new("a".into(), 0, 0);
    assert_eq!(CookingTimeEstimator::estimate(&it, 1), 0);
    // quantity 6: log_2.71(8) truncates to 2; version 13 counts as 3
    let it = Item::new("ab".into(), 6, 0);
    assert_eq!(CookingTimeEstimator::estimate(&it, 13), (120 + 180) * 2);
    // a negative total never cooks
    let it = Item::new("ab".into(), -9, 0);
    assert_eq!(CookingTimeEstimator::estimate(&it, 3), 0);
}

// Event construction from parsed commands.
#[test]
fn test_event_from_toro() {
    let toro = Toro::from_toro_string("new order for table 1: a * 2, b * 3").unwrap();
    let e = Event::from_toro(&toro, 5, 99).unwrap();
    assert_eq!(e.version, 5);
    assert_eq!(e.created, 99);
    let p = e.payload.unwrap();
    assert_eq!(p.table_id, 1);
    assert_eq!(p.items.len(), 2);
    assert_eq!(p.items[0].id, "a");
    assert_eq!(p.items[0].quantity, 2);
    assert_eq!(p.items[0].cooking_time, None);
    assert_eq!(p.items[0].timestamp, 99);

    let yeet = Toro::from_toro_string("yeet").unwrap();
    let e = Event::from_toro(&yeet, 9, 1).unwrap();
    assert!(e.payload.is_none());

    let check = Toro::from_toro_string("check for table 1").unwrap();
    assert!(Event::from_toro(&check, 1, 1).is_err());
}

// Write-time validation against the configuration.
#[test]
fn test_validate_order() {
    let config = Config {
        restaurant: RestaurantConfig {
            n_table: 2,
            menus: vec!["a".into(), "b".into()],
        },
        network: NetworkConfig {
            ip: "127.0.0.1".into(),
            port: 3000,
        },
    };
    let ok = Toro::from_toro_string("new order for table 1: a * 1").unwrap();
    assert_eq!(toro::config::validate_order(&config, &ok), Ok(()));
    let far = Toro::from_toro_string("new order for table 2: a * 1").unwrap();
    assert_eq!(
        toro::config::validate_order(&config, &far),
        Err(OrderRejection::TableOutOfRange)
    );
    let unknown = Toro::from_toro_string("new order for table 1: zz * 1").unwrap();
    assert_eq!(
        toro::config::validate_order(&config, &unknown),
        Err(OrderRejection::UnknownMenu)
    );
}

// The rendered report, character for character.
#[test]
fn test_render_report() {
    let mut p = RestaurantProjector::new(
        1,
        fixed_source(vec![Event::new(1, Command::New, 10)
            .with_payload(Payload::new(0, vec![Item::new("a".into(), 1, 10)]))]),
    );
    p.update().unwrap();
    // cooking time is 120 seconds; 10 seconds have passed
    let report = render_table_report(&p.tables[0], None, 20);
    assert_eq!(report, "Table 0:\na * 1 in 1 minutes 50 seconds\n");
    // the same table, queried for a name that was never ordered
    let query = vec!["zz".to_string()];
    let report = render_table_report(&p.tables[0], Some(&query), 20);
    assert_eq!(report, "Table 0:\n");
    // long past the cooking time, the item is finished
    let report = render_table_report(&p.tables[0], None, 100000);
    assert_eq!(report, "Table 0:\na * 1 finished\n");
    // an empty table
    let empty = Table::new(4);
    let report = render_table_report(&empty, None, 0);
    assert_eq!(report, "Table 4:\nNo order yet.");
}
