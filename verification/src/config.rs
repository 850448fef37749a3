//! Start-up configuration and the write-time validation of freshly
//! submitted commands against it.
//!
//! A command is validated before it is appended to the store: its table id
//! must lie inside the fixed table range, and every menu name it mentions
//! must be on the configured menu.

use crate::toro::{Param, ParamV, Toro, ToroV};
use vstd::prelude::*;

verus! {

/// The restaurant's own settings: how many tables it has, and the menu.
#[derive(Debug, Clone)]
pub struct RestaurantConfig {
    pub n_table: u64,
    pub menus: Vec<String>,
}

/// Where the service listens.
#[derive(Debug, Clone)]
pub struct NetworkConfig {
    pub ip: String,
    pub port: u64,
}

/// The whole configuration, loaded once at start-up.
#[derive(Debug, Clone)]
pub struct Config {
    pub restaurant: RestaurantConfig,
    pub network: NetworkConfig,
}

/// Whether `name` is on the configured menu.
pub open spec fn menu_known(menus: Seq<Seq<char>>, name: Seq<char>) -> bool {
    exists|j: int| 0 <= j < menus.len() && menus[j] == name
}

/// The image of a menu list.
pub open spec fn menus_of(menus: Seq<String>) -> Seq<Seq<char>> {
    Seq::new(menus.len(), |i: int| menus[i]@)
}

/// The menu names a command mentions, in order.
pub open spec fn mentioned_menus(p: ParamV) -> Seq<Seq<char>> {
    match p {
        ParamV::MenuQuantities(v) => Seq::new(v.len(), |i: int| v[i].0),
        ParamV::Menu(v) => v,
    }
}

/// Why a freshly submitted command was rejected at write time.
#[derive(Debug, Clone, Copy, PartialEq, Eq, Structural)]
pub enum OrderRejection {
    /// The command's table id is not one of the configured tables.
    TableOutOfRange,
    /// The command mentions a menu name the restaurant does not serve.
    UnknownMenu,
}

/// Write-time validation: the table id, if any, must be below `n_table`,
/// and every mentioned menu name must be known; the table check comes
/// first.
pub open spec fn spec_validate(n_table: u64, menus: Seq<Seq<char>>, t: ToroV) -> Result<
    (),
    OrderRejection,
> {
    if t.table_id matches Some(tid) && tid as u64 >= n_table {
        Err(OrderRejection::TableOutOfRange)
    } else if t.param matches Some(p) && (exists|i: int|
        0 <= i < mentioned_menus(p).len() && !menu_known(
            menus,
            #[trigger] mentioned_menus(p)[i],
        )) {
        Err(OrderRejection::UnknownMenu)
    } else {
        Ok(())
    }
}

/// Executable containment test against the configured menu.
fn known_menu(menus: &Vec<String>, name: &str) -> (r: bool)
    ensures
        r == menu_known(menus_of(menus@), name@),
{
    let mut j: usize = 0;
    while j < menus.len()
        invariant
            j <= menus@.len(),
            forall|k: int| 0 <= k < j ==> menus_of(menus@)[k] != name@,
        decreases menus@.len() - j,
    {
        if crate::chars::str_eq(menus[j].as_str(), name) {
            proof {
                assert(menus_of(menus@)[j as int] == name@);
            }
            return true;
        }
        proof {
            assert(menus_of(menus@)[j as int] != name@);
        }
        j = j + 1;
    }
    proof {
        if menu_known(menus_of(menus@), name@) {
            let k = choose|k: int|
                0 <= k < menus_of(menus@).len() && menus_of(menus@)[k] == name@;
            assert(menus_of(menus@)[k] != name@);
        }
    }
    false
}

/// Validates a freshly submitted command against the configuration,
/// exactly as `spec_validate` says: rejected if and only if its table id
/// is out of range or it mentions an unserved menu name.
#[verifier::loop_isolation(false)]
pub fn validate_order(config: &Config, toro: &Toro) -> (r: Result<(), OrderRejection>)
    ensures
        r == spec_validate(config.restaurant.n_table, menus_of(config.restaurant.menus@), toro@),
{
    match toro.table_id {
        Some(tid) => {
            if tid as u64 >= config.restaurant.n_table {
                return Err(OrderRejection::TableOutOfRange);
            }
        },
        None => {},
    }
    match &toro.param {
        None => Ok(()),
        Some(p) => {
            let ghost names = mentioned_menus(p@);
            match p {
                Param::MenuQuantities(v) => {
                    let mut i: usize = 0;
                    while i < v.len()
                        invariant
                            i <= v@.len(),
                            names == mentioned_menus(p@),
                            names.len() == v@.len(),
                            forall|k: int|
                                0 <= k < i ==> menu_known(
                                    menus_of(config.restaurant.menus@),
                                    #[trigger] names[k],
                                ),
                        decreases v@.len() - i,
                    {
                        if !known_menu(&config.restaurant.menus, v[i].0.as_str()) {
                            proof {
                                assert(names[i as int] == v@[i as int].0@);
                            }
                            return Err(OrderRejection::UnknownMenu);
                        }
                        proof {
                            assert(names[i as int] == v@[i as int].0@);
                        }
                        i = i + 1;
                    }
                    Ok(())
                },
                Param::Menu(v) => {
                    let mut i: usize = 0;
                    while i < v.len()
                        invariant
                            i <= v@.len(),
                            names == mentioned_menus(p@),
                            names.len() == v@.len(),
                            forall|k: int|
                                0 <= k < i ==> menu_known(
                                    menus_of(config.restaurant.menus@),
                                    #[trigger] names[k],
                                ),
                        decreases v@.len() - i,
                    {
                        if !known_menu(&config.restaurant.menus, v[i].as_str()) {
                            proof {
                                assert(names[i as int] == v@[i as int]@);
                            }
                            return Err(OrderRejection::UnknownMenu);
                        }
                        proof {
                            assert(names[i as int] == v@[i as int]@);
                        }
                        i = i + 1;
                    }
                    Ok(())
                },
            }
        },
    }
}

/// The application's root state: the configuration and the path of the
/// event database, as the bootstrap hands them on.
pub struct App {
    pub config: Config,
    pub db_file: String,
}

impl App {
    /// Packs the bootstrap inputs.
    pub fn new(config: Config, db_file: String) -> (r: App)
        ensures
            r.db_file == db_file,
    {
        App { config, db_file }
    }
}

} // verus!
